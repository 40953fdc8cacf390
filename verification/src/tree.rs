use vstd::prelude::*;

use crate::order::{key_rows, lemma_lex_irreflexive, lemma_lex_transitive, lex_lt, sort_order, sorts_before};
use crate::proc::PidStat;

use std::collections::HashSet;

verus! {

/// Some process in `s` has pid `p`.
pub open spec fn has_pid(s: Seq<PidStat>, p: u32) -> bool {
    exists|j: int| 0 <= j < s.len() && #[trigger] s[j].pid == p
}

/// No two processes share a pid.
pub open spec fn distinct_pids(s: Seq<PidStat>) -> bool {
    forall|i: int, j: int|
        0 <= i < s.len() && 0 <= j < s.len() && i != j ==> #[trigger] s[i].pid != #[trigger] s[j].pid
}

/// A chain of processes, by position in `s`, from a root down: the first
/// has no parent among `s`, and each other's parent pid is the pid of the
/// one before it.  Each chain is one row of the tree.
pub open spec fn is_walk(s: Seq<PidStat>, w: Seq<usize>) -> bool {
    &&& w.len() >= 1
    &&& forall|j: int| 0 <= j < w.len() ==> #[trigger] w[j] < s.len()
    &&& !has_pid(s, s[w[0] as int].ppid)
    &&& forall|j: int| 1 <= j < w.len() ==> s[#[trigger] w[j] as int].ppid == s[w[j - 1] as int].pid
}

/// Every chain is at most as long as the list: no chain runs into a cycle.
pub open spec fn tree_is_bounded(s: Seq<PidStat>) -> bool {
    forall|w: Seq<usize>| #[trigger] is_walk(s, w) ==> w.len() <= s.len()
}

/// The sort key of one step of a chain: the process's pid, then its
/// position (as two 32-bit halves), so that equal pids are told apart.
pub open spec fn step_key(s: Seq<PidStat>, e: usize) -> Seq<u32> {
    seq![s[e as int].pid, (e as int / 0x1_0000_0000int) as u32, (e as int % 0x1_0000_0000int) as u32]
}

/// The sort key of a chain: the keys of its steps, in order.  Chains in
/// key order are the order of a depth-first walk that takes roots and the
/// children of each process in increasing pid order.
pub open spec fn walk_key(s: Seq<PidStat>, w: Seq<usize>) -> Seq<u32>
    decreases w.len(),
{
    if w.len() == 0 {
        seq![]
    } else {
        walk_key(s, w.drop_last()) + step_key(s, w.last())
    }
}

/// The position of the last process in `s` with pid `p`.
pub open spec fn last_pos(s: Seq<PidStat>, p: u32) -> int
    decreases s.len(),
{
    if s.len() == 0 {
        -1
    } else if s.last().pid == p {
        s.len() - 1
    } else {
        last_pos(s.drop_last(), p)
    }
}

/// The row a chain stands for: the last process listed with the pid of the
/// chain's end, at a depth of the chain's length less one.
pub open spec fn walk_row(s: Seq<PidStat>, w: Seq<usize>) -> (usize, usize) {
    (last_pos(s, s[w.last() as int].pid) as usize, (w.len() - 1) as usize)
}

/// `ws` lists every chain once, in key order.
pub open spec fn is_walk_listing(s: Seq<PidStat>, ws: Seq<Seq<usize>>) -> bool {
    &&& forall|k: int| 0 <= k < ws.len() ==> is_walk(s, #[trigger] ws[k])
    &&& forall|w: Seq<usize>| #[trigger] is_walk(s, w) ==> ws.contains(w)
    &&& forall|a: int, b: int|
        0 <= a < b < ws.len() ==> lex_lt(walk_key(s, #[trigger] ws[a]), walk_key(s, #[trigger] ws[b]))
}

/// The chains of `s` in key order (there is exactly one such listing when
/// the chains are bounded).
pub open spec fn tree_walks(s: Seq<PidStat>) -> Seq<Seq<usize>> {
    choose|ws: Seq<Seq<usize>>| is_walk_listing(s, ws)
}

/// The rows of the tree view of `s`: one for each chain, in key order.
pub open spec fn tree_rows(s: Seq<PidStat>) -> Seq<(usize, usize)> {
    tree_walks(s).map_values(|w: Seq<usize>| walk_row(s, w))
}

/// The front part of a chain is a chain.
pub proof fn lemma_walk_prefix(s: Seq<PidStat>, w: Seq<usize>, k: int)
    requires
        is_walk(s, w),
        1 <= k <= w.len(),
    ensures
        is_walk(s, w.take(k)),
{
    let p = w.take(k);
    assert forall|j: int| 1 <= j < p.len() implies s[#[trigger] p[j] as int].ppid == s[p[j - 1] as int].pid by {
        assert(p[j] == w[j]);
    }
}

/// A chain followed by a child of its last process is a chain.
pub proof fn lemma_walk_extend(s: Seq<PidStat>, w: Seq<usize>, e: usize)
    requires
        is_walk(s, w),
        e < s.len(),
        s[e as int].ppid == s[w.last() as int].pid,
    ensures
        is_walk(s, w.push(e)),
        w.push(e).drop_last() == w,
{
    let x = w.push(e);
    assert forall|j: int| 1 <= j < x.len() implies s[#[trigger] x[j] as int].ppid == s[x[j - 1] as int].pid by {
        if j < w.len() {
            assert(x[j] == w[j]);
        }
    }
    assert(x.drop_last() =~= w);
}

proof fn lemma_walk_key_len(s: Seq<PidStat>, w: Seq<usize>)
    ensures
        walk_key(s, w).len() == 3 * w.len(),
    decreases w.len(),
{
    if w.len() > 0 {
        lemma_walk_key_len(s, w.drop_last());
    }
}

/// Different chains have different keys.
pub proof fn lemma_walk_key_injective(s: Seq<PidStat>, w1: Seq<usize>, w2: Seq<usize>)
    requires
        walk_key(s, w1) == walk_key(s, w2),
    ensures
        w1 == w2,
    decreases w1.len(),
{
    lemma_walk_key_len(s, w1);
    lemma_walk_key_len(s, w2);
    if w1.len() > 0 {
        let k1 = walk_key(s, w1);
        let p1 = walk_key(s, w1.drop_last());
        let p2 = walk_key(s, w2.drop_last());
        lemma_walk_key_len(s, w1.drop_last());
        lemma_walk_key_len(s, w2.drop_last());
        let n = p1.len() as int;
        assert(k1[n + 1] == step_key(s, w1.last())[1]);
        assert(k1[n + 2] == step_key(s, w1.last())[2]);
        assert(walk_key(s, w2)[n + 1] == step_key(s, w2.last())[1]);
        assert(walk_key(s, w2)[n + 2] == step_key(s, w2.last())[2]);
        let a = w1.last();
        let b = w2.last();
        assert(a as int == (a as int / 0x1_0000_0000int) * 0x1_0000_0000int + a as int % 0x1_0000_0000int);
        assert(b as int == (b as int / 0x1_0000_0000int) * 0x1_0000_0000int + b as int % 0x1_0000_0000int);
        assert(a == b);
        assert(p1 =~= k1.take(n));
        assert(p2 =~= walk_key(s, w2).take(n));
        lemma_walk_key_injective(s, w1.drop_last(), w2.drop_last());
        assert(w1 =~= w1.drop_last().push(a));
        assert(w2 =~= w2.drop_last().push(b));
    } else {
        assert(w1 =~= w2);
    }
}


/// Two listings of every chain in key order are the same.
pub proof fn lemma_listing_unique(s: Seq<PidStat>, w1: Seq<Seq<usize>>, w2: Seq<Seq<usize>>)
    requires
        is_walk_listing(s, w1),
        is_walk_listing(s, w2),
    ensures
        w1 == w2,
{
    let m = if w1.len() < w2.len() {
        w1.len()
    } else {
        w2.len()
    };
    if m > 0 {
        lemma_listings_agree_upto(s, w1, w2, m - 1);
    }
    lemma_listing_not_shorter(s, w1, w2);
    lemma_listing_not_shorter(s, w2, w1);
    assert(w1 =~= w2);
}

proof fn lemma_lex_asymmetric(a: Seq<u32>, b: Seq<u32>)
    requires
        lex_lt(a, b),
    ensures
        !lex_lt(b, a),
{
    if lex_lt(b, a) {
        lemma_lex_transitive(a, b, a);
        lemma_lex_irreflexive(a);
    }
}

proof fn lemma_listing_distinct(s: Seq<PidStat>, ws: Seq<Seq<usize>>, a: int, b: int)
    requires
        is_walk_listing(s, ws),
        0 <= a < ws.len(),
        0 <= b < ws.len(),
        a != b,
    ensures
        ws[a] != ws[b],
{
    if ws[a] == ws[b] {
        lemma_lex_irreflexive(walk_key(s, ws[a]));
        if a < b {
            assert(lex_lt(walk_key(s, ws[a]), walk_key(s, ws[b])));
        } else {
            assert(lex_lt(walk_key(s, ws[b]), walk_key(s, ws[a])));
        }
    }
}

proof fn lemma_listings_agree_upto(s: Seq<PidStat>, w1: Seq<Seq<usize>>, w2: Seq<Seq<usize>>, k: int)
    requires
        is_walk_listing(s, w1),
        is_walk_listing(s, w2),
        0 <= k < w1.len(),
        k < w2.len(),
    ensures
        forall|j: int| 0 <= j <= k ==> w1[j] == w2[j],
    decreases k,
{
    if k > 0 {
        lemma_listings_agree_upto(s, w1, w2, k - 1);
    }
    let x = w1[k];
    let y = w2[k];
    if x != y {
        assert(is_walk(s, x));
        assert(w2.contains(x));
        let j = choose|j: int| 0 <= j < w2.len() && w2[j] == x;
        assert(is_walk(s, y));
        assert(w1.contains(y));
        let i = choose|i: int| 0 <= i < w1.len() && w1[i] == y;
        if j < k {
            assert(w1[j] == x);
            lemma_listing_distinct(s, w1, j, k);
        } else if i < k {
            assert(w2[i] == y);
            lemma_listing_distinct(s, w2, i, k);
        } else {
            assert(lex_lt(walk_key(s, w2[k]), walk_key(s, w2[j])));
            assert(lex_lt(walk_key(s, w1[k]), walk_key(s, w1[i])));
            lemma_lex_asymmetric(walk_key(s, y), walk_key(s, x));
        }
    }
}

proof fn lemma_listing_not_shorter(s: Seq<PidStat>, w1: Seq<Seq<usize>>, w2: Seq<Seq<usize>>)
    requires
        is_walk_listing(s, w1),
        is_walk_listing(s, w2),
        forall|j: int| 0 <= j < w1.len() && j < w2.len() ==> w1[j] == w2[j],
    ensures
        w1.len() >= w2.len(),
{
    if w1.len() < w2.len() {
        let n = w1.len() as int;
        let x = w2[n];
        assert(is_walk(s, x));
        assert(w1.contains(x));
        let j = choose|j: int| 0 <= j < w1.len() && w1[j] == x;
        assert(w2[j] == x);
        lemma_listing_distinct(s, w2, j, n);
    }
}

proof fn lemma_lex_prefix(a: Seq<u32>, t: Seq<u32>)
    requires
        t.len() > 0,
    ensures
        lex_lt(a, a + t),
    decreases a.len(),
{
    if a.len() > 0 {
        assert((a + t).drop_first() =~= a.drop_first() + t);
        lemma_lex_prefix(a.drop_first(), t);
    }
}

/// In a listing of the chains in key order, the chain that continues a
/// listed chain with a child of its last process comes later, one level
/// deeper: a child is shown below its parent, indented one step further.
pub proof fn lemma_child_listed_after(s: Seq<PidStat>, ws: Seq<Seq<usize>>, a: int, e: usize)
    requires
        s.len() <= usize::MAX,
        tree_is_bounded(s),
        is_walk_listing(s, ws),
        0 <= a < ws.len(),
        e < s.len(),
        s[e as int].ppid == s[ws[a].last() as int].pid,
    ensures
        exists|b: int|
            a < b < ws.len() && #[trigger] ws[b] == ws[a].push(e) && walk_row(s, ws[b]).1 == walk_row(
                s,
                ws[a],
            ).1 + 1,
{
    let w = ws[a];
    assert(is_walk(s, w));
    lemma_walk_extend(s, w, e);
    let x = w.push(e);
    assert(ws.contains(x));
    let b = choose|b: int| 0 <= b < ws.len() && ws[b] == x;
    lemma_key_push(s, w, e);
    if b <= a {
        lemma_key_order(s, ws, b, a);
    }
    assert(x.len() <= s.len());
    assert(walk_row(s, ws[b]).1 == walk_row(s, ws[a]).1 + 1);
}

proof fn lemma_key_push(s: Seq<PidStat>, w: Seq<usize>, e: usize)
    ensures
        lex_lt(walk_key(s, w), walk_key(s, w.push(e))),
{
    let x = w.push(e);
    assert(x.drop_last() =~= w);
    assert(walk_key(s, x) == walk_key(s, w) + step_key(s, e));
    lemma_lex_prefix(walk_key(s, w), step_key(s, e));
}

proof fn lemma_key_order(s: Seq<PidStat>, ws: Seq<Seq<usize>>, b: int, a: int)
    requires
        is_walk_listing(s, ws),
        0 <= b <= a < ws.len(),
    ensures
        !lex_lt(walk_key(s, ws[a]), walk_key(s, ws[b])),
{
    if b < a {
        assert(lex_lt(walk_key(s, ws[b]), walk_key(s, ws[a])));
        lemma_lex_asymmetric(walk_key(s, ws[b]), walk_key(s, ws[a]));
    } else {
        lemma_lex_irreflexive(walk_key(s, ws[a]));
    }
}

/// A chain of one root process sits at depth 0.
pub proof fn lemma_root_depth(s: Seq<PidStat>, e: usize)
    requires
        e < s.len(),
        !has_pid(s, s[e as int].ppid),
    ensures
        is_walk(s, seq![e]),
        walk_row(s, seq![e]).1 == 0,
{
}

proof fn lemma_last_pos_distinct(s: Seq<PidStat>, e: int)
    requires
        distinct_pids(s),
        0 <= e < s.len(),
    ensures
        last_pos(s, s[e].pid) == e,
    decreases s.len(),
{
    if e < s.len() - 1 {
        assert(s.last().pid != s[e].pid);
        assert forall|i: int, j: int|
            0 <= i < s.drop_last().len() && 0 <= j < s.drop_last().len() && i != j implies #[trigger] s.drop_last()[i].pid
            != #[trigger] s.drop_last()[j].pid by {
            assert(s[i].pid != s[j].pid);
        }
        lemma_last_pos_distinct(s.drop_last(), e);
    }
}

proof fn lemma_walk_by_last(s: Seq<PidStat>, w1: Seq<usize>, w2: Seq<usize>)
    requires
        distinct_pids(s),
        is_walk(s, w1),
        is_walk(s, w2),
        w1.last() == w2.last(),
    ensures
        w1 == w2,
    decreases w1.len(),
{
    if w1.len() == 1 && w2.len() == 1 {
        assert(w1 =~= w2);
    } else if w1.len() == 1 {
        // w1's only process is a root, but in w2 it has a listed parent
        assert(s[w2[w2.len() - 1] as int].ppid == s[w2[w2.len() - 2] as int].pid);
        assert(w1[0] == w1.last());
    } else if w2.len() == 1 {
        assert(s[w1[w1.len() - 1] as int].ppid == s[w1[w1.len() - 2] as int].pid);
        assert(w2[0] == w2.last());
    } else {
        let p1 = w1[w1.len() - 2];
        let p2 = w2[w2.len() - 2];
        assert(s[w1[w1.len() - 1] as int].ppid == s[p1 as int].pid);
        assert(s[w2[w2.len() - 1] as int].ppid == s[p2 as int].pid);
        assert(p1 == p2);
        lemma_walk_prefix(s, w1, w1.len() - 1);
        lemma_walk_prefix(s, w2, w2.len() - 1);
        lemma_walk_by_last(s, w1.take(w1.len() - 1), w2.take(w2.len() - 1));
        assert(w1 =~= w1.take(w1.len() - 1).push(w1.last()));
        assert(w2 =~= w2.take(w2.len() - 1).push(w2.last()));
    }
}

/// When no two processes share a pid, each process has at most one row in
/// a listing of the chains, and that row shows the process itself.
pub proof fn lemma_distinct_pids_rows_once(s: Seq<PidStat>, ws: Seq<Seq<usize>>)
    requires
        distinct_pids(s),
        is_walk_listing(s, ws),
    ensures
        forall|k: int| 0 <= k < ws.len() ==> walk_row(s, #[trigger] ws[k]).0 == ws[k].last(),
        forall|a: int, b: int|
            0 <= a < ws.len() && 0 <= b < ws.len() && a != b ==> walk_row(s, #[trigger] ws[a]).0
                != walk_row(s, #[trigger] ws[b]).0,
{
    assert forall|k: int| 0 <= k < ws.len() implies walk_row(s, #[trigger] ws[k]).0 == ws[k].last() by {
        assert(is_walk(s, ws[k]));
        assert(ws[k].last() < s.len());
        lemma_last_pos_distinct(s, ws[k].last() as int);
    }
    assert forall|a: int, b: int|
        0 <= a < ws.len() && 0 <= b < ws.len() && a != b implies walk_row(s, #[trigger] ws[a]).0
        != walk_row(s, #[trigger] ws[b]).0 by {
        assert(is_walk(s, ws[a]) && is_walk(s, ws[b]));
        lemma_last_pos_distinct(s, ws[a].last() as int);
        lemma_last_pos_distinct(s, ws[b].last() as int);
        if ws[a].last() == ws[b].last() {
            lemma_walk_by_last(s, ws[a], ws[b]);
            lemma_listing_distinct(s, ws, a, b);
        }
    }
}

/// Along a chain, when no two processes share a pid, no process comes
/// twice: going back from a repeat step by step ends at the root, whose
/// parent would then be listed.
proof fn lemma_walk_no_repeat(s: Seq<PidStat>, w: Seq<usize>, i: int, j: int)
    requires
        distinct_pids(s),
        is_walk(s, w),
        0 <= i < j < w.len(),
    ensures
        w[i] != w[j],
    decreases i,
{
    if w[i] == w[j] {
        assert(s[w[j] as int].ppid == s[w[j - 1] as int].pid);
        if i == 0 {
            assert(has_pid(s, s[w[0] as int].ppid)) by {
                assert(s[w[j - 1] as int].pid == s[w[0] as int].ppid);
            }
        } else {
            assert(s[w[i] as int].ppid == s[w[i - 1] as int].pid);
            assert(w[i - 1] == w[j - 1]) by {
                if w[i - 1] != w[j - 1] {
                    assert(s[w[i - 1] as int].pid != s[w[j - 1] as int].pid);
                }
            }
            lemma_walk_no_repeat(s, w, i - 1, j - 1);
        }
    }
}

/// When no two processes share a pid, every chain is at most as long as
/// the list, so the tree view is finite.
pub proof fn lemma_distinct_pids_bounded(s: Seq<PidStat>)
    requires
        distinct_pids(s),
    ensures
        tree_is_bounded(s),
{
    assert forall|w: Seq<usize>| #[trigger] is_walk(s, w) implies w.len() <= s.len() by {
        let wi = w.map_values(|x: usize| x as int);
        assert forall|a: int, b: int| 0 <= a < wi.len() && 0 <= b < wi.len() && a != b implies wi[a] != wi[b] by {
            if a < b {
                lemma_walk_no_repeat(s, w, a, b);
            } else {
                lemma_walk_no_repeat(s, w, b, a);
            }
        }
        assert(wi.no_duplicates());
        wi.unique_seq_to_set();
        let range = vstd::set_lib::set_int_range(0, s.len() as int);
        vstd::set_lib::lemma_int_range(0, s.len() as int);
        assert forall|x: int| wi.to_set().contains(x) implies range.contains(x) by {
            let k = choose|k: int| 0 <= k < wi.len() && wi[k] == x;
            assert(w[k] < s.len());
        }
        vstd::set_lib::lemma_len_subset(wi.to_set(), range);
    }
}

/// The pids along a chain.
pub open spec fn walk_pids(s: Seq<PidStat>, w: Seq<usize>) -> Seq<u32> {
    w.map_values(|i: usize| s[i as int].pid)
}

proof fn lemma_walk_key_front(s: Seq<PidStat>, w: Seq<usize>)
    requires
        w.len() > 0,
    ensures
        walk_key(s, w) == step_key(s, w[0]) + walk_key(s, w.drop_first()),
    decreases w.len(),
{
    if w.len() == 1 {
        assert(w.drop_last() =~= Seq::<usize>::empty());
        assert(w.drop_first() =~= Seq::<usize>::empty());
        assert(walk_key(s, w) =~= step_key(s, w[0]) + walk_key(s, w.drop_first()));
    } else {
        lemma_walk_key_front(s, w.drop_last());
        assert(w.drop_last().drop_first() =~= w.drop_first().drop_last());
        assert(w.drop_first().last() == w.last());
        assert(walk_key(s, w) =~= step_key(s, w[0]) + walk_key(s, w.drop_first()));
    }
}

proof fn lemma_lex_common_front(c: Seq<u32>, a: Seq<u32>, b: Seq<u32>)
    ensures
        lex_lt(c + a, c + b) == lex_lt(a, b),
    decreases c.len(),
{
    if c.len() > 0 {
        assert((c + a).drop_first() =~= c.drop_first() + a);
        assert((c + b).drop_first() =~= c.drop_first() + b);
        lemma_lex_common_front(c.drop_first(), a, b);
    } else {
        assert(c + a =~= a);
        assert(c + b =~= b);
    }
}

/// When no two processes share a pid, chains come in key order exactly
/// when their pid sequences come in lexicographic order: the positions in
/// the keys never decide.
proof fn lemma_key_order_is_pid_order(s: Seq<PidStat>, w: Seq<usize>, v: Seq<usize>)
    requires
        distinct_pids(s),
        forall|j: int| 0 <= j < w.len() ==> #[trigger] w[j] < s.len(),
        forall|j: int| 0 <= j < v.len() ==> #[trigger] v[j] < s.len(),
    ensures
        lex_lt(walk_key(s, w), walk_key(s, v)) == lex_lt(walk_pids(s, w), walk_pids(s, v)),
    decreases w.len(),
{
    lemma_walk_key_len(s, w);
    lemma_walk_key_len(s, v);
    if w.len() > 0 && v.len() > 0 {
        lemma_walk_key_front(s, w);
        lemma_walk_key_front(s, v);
        let kw = walk_key(s, w);
        let kv = walk_key(s, v);
        let pw = walk_pids(s, w);
        let pv = walk_pids(s, v);
        assert(kw[0] == s[w[0] as int].pid);
        assert(kv[0] == s[v[0] as int].pid);
        if s[w[0] as int].pid == s[v[0] as int].pid {
            assert(w[0] == v[0]) by {
                if w[0] != v[0] {
                    assert(s[w[0] as int].pid != s[v[0] as int].pid);
                }
            }
            lemma_lex_common_front(step_key(s, w[0]), walk_key(s, w.drop_first()), walk_key(s, v.drop_first()));
            assert(pw.drop_first() =~= walk_pids(s, w.drop_first()));
            assert(pv.drop_first() =~= walk_pids(s, v.drop_first()));
            lemma_key_order_is_pid_order(s, w.drop_first(), v.drop_first());
        }
    }
}

/// `s2` lists the processes of `s1` in another order: `s2[k]` is
/// `s1[p[k]]`, and `q` undoes `p`.
pub open spec fn is_reordering(s1: Seq<PidStat>, s2: Seq<PidStat>, p: Seq<usize>, q: Seq<usize>) -> bool {
    &&& s2.len() == s1.len()
    &&& p.len() == s1.len()
    &&& q.len() == s1.len()
    &&& forall|k: int| 0 <= k < s1.len() ==> #[trigger] p[k] < s1.len() && q[p[k] as int] == k
    &&& forall|k: int| 0 <= k < s1.len() ==> #[trigger] q[k] < s1.len() && p[q[k] as int] == k
    &&& forall|k: int| 0 <= k < s1.len() ==> #[trigger] s2[k] == s1[p[k] as int]
}

/// A chain carried over, position by position, through `p`.
pub open spec fn carry(p: Seq<usize>, w: Seq<usize>) -> Seq<usize> {
    w.map_values(|i: usize| p[i as int])
}

proof fn lemma_reordering_back(s1: Seq<PidStat>, s2: Seq<PidStat>, p: Seq<usize>, q: Seq<usize>)
    requires
        is_reordering(s1, s2, p, q),
    ensures
        is_reordering(s2, s1, q, p),
{
    assert forall|k: int| 0 <= k < s2.len() implies #[trigger] s1[k] == s2[q[k] as int] by {
        assert(s2[q[k] as int] == s1[p[q[k] as int] as int]);
    }
}

proof fn lemma_reordering_distinct(s1: Seq<PidStat>, s2: Seq<PidStat>, p: Seq<usize>, q: Seq<usize>)
    requires
        is_reordering(s1, s2, p, q),
        distinct_pids(s1),
    ensures
        distinct_pids(s2),
{
    assert forall|i: int, j: int|
        0 <= i < s2.len() && 0 <= j < s2.len() && i != j implies #[trigger] s2[i].pid != #[trigger] s2[j].pid by {
        assert(s2[i] == s1[p[i] as int]);
        assert(s2[j] == s1[p[j] as int]);
        assert(p[i] != p[j]) by {
            if p[i] == p[j] {
                assert(q[p[i] as int] == i);
                assert(q[p[j] as int] == j);
            }
        }
    }
}

proof fn lemma_carry_walk(s1: Seq<PidStat>, s2: Seq<PidStat>, p: Seq<usize>, q: Seq<usize>, w: Seq<usize>)
    requires
        is_reordering(s1, s2, p, q),
        is_walk(s2, w),
    ensures
        is_walk(s1, carry(p, w)),
        walk_pids(s1, carry(p, w)) == walk_pids(s2, w),
        carry(q, carry(p, w)) == w,
{
    let c = carry(p, w);
    assert forall|j: int| 0 <= j < w.len() implies #[trigger] s2[w[j] as int] == s1[c[j] as int] by {
        assert(s2[w[j] as int] == s1[p[w[j] as int] as int]);
    }
    assert forall|j: int| 0 <= j < c.len() implies #[trigger] c[j] < s1.len() by {
        assert(w[j] < s2.len());
    }
    assert(!has_pid(s1, s1[c[0] as int].ppid)) by {
        assert(s2[w[0] as int] == s1[c[0] as int]);
        if has_pid(s1, s1[c[0] as int].ppid) {
            let i = choose|i: int| 0 <= i < s1.len() && #[trigger] s1[i].pid == s1[c[0] as int].ppid;
            assert(s2[q[i] as int] == s1[p[q[i] as int] as int]);
            assert(s2[q[i] as int].pid == s2[w[0] as int].ppid);
        }
    }
    assert forall|j: int| 1 <= j < c.len() implies s1[#[trigger] c[j] as int].ppid == s1[c[j - 1] as int].pid by {
        assert(s2[w[j] as int] == s1[c[j] as int]);
        assert(s2[w[j - 1] as int] == s1[c[j - 1] as int]);
        assert(s2[w[j] as int].ppid == s2[w[j - 1] as int].pid);
    }
    assert(walk_pids(s1, c) =~= walk_pids(s2, w));
    assert forall|j: int| 0 <= j < w.len() implies #[trigger] carry(q, c)[j] == w[j] by {
        assert(q[p[w[j] as int] as int] == w[j]);
    }
    assert(carry(q, c) =~= w);
}

/// When no two processes share a pid, the tree does not depend on the order
/// in which the processes are listed: two listings of the same processes
/// give rows that show the same processes at the same depths, in the same
/// order.
pub proof fn lemma_tree_order_independent(s1: Seq<PidStat>, s2: Seq<PidStat>, p: Seq<usize>, q: Seq<usize>)
    requires
        distinct_pids(s1),
        is_reordering(s1, s2, p, q),
        is_walk_listing(s1, tree_walks(s1)),
        is_walk_listing(s2, tree_walks(s2)),
    ensures
        tree_rows(s1).len() == tree_rows(s2).len(),
        forall|k: int|
            0 <= k < tree_rows(s1).len() ==> s1[#[trigger] tree_rows(s1)[k].0 as int] == s2[tree_rows(s2)[k].0 as int]
                && tree_rows(s1)[k].1 == tree_rows(s2)[k].1,
{
    let ws1 = tree_walks(s1);
    let ws2 = tree_walks(s2);
    lemma_reordering_back(s1, s2, p, q);
    lemma_reordering_distinct(s1, s2, p, q);
    let m = ws2.map_values(|w: Seq<usize>| carry(p, w));
    assert forall|k: int| 0 <= k < m.len() implies is_walk(s1, #[trigger] m[k]) by {
        assert(is_walk(s2, ws2[k]));
        lemma_carry_walk(s1, s2, p, q, ws2[k]);
    }
    assert forall|w: Seq<usize>| #[trigger] is_walk(s1, w) implies m.contains(w) by {
        lemma_carry_walk(s2, s1, q, p, w);
        let v = carry(q, w);
        assert(ws2.contains(v));
        let j = choose|j: int| 0 <= j < ws2.len() && ws2[j] == v;
        assert(m[j] == w);
    }
    assert forall|a: int, b: int| 0 <= a < b < m.len() implies lex_lt(
        walk_key(s1, #[trigger] m[a]),
        walk_key(s1, #[trigger] m[b]),
    ) by {
        let x = ws2[a];
        let y = ws2[b];
        assert(is_walk(s2, x) && is_walk(s2, y));
        assert(lex_lt(walk_key(s2, x), walk_key(s2, y)));
        lemma_key_order_is_pid_order(s2, x, y);
        lemma_carry_walk(s1, s2, p, q, x);
        lemma_carry_walk(s1, s2, p, q, y);
        lemma_key_order_is_pid_order(s1, m[a], m[b]);
    }
    lemma_listing_unique(s1, ws1, m);
    assert forall|k: int|
        0 <= k < tree_rows(s1).len() implies s1[#[trigger] tree_rows(s1)[k].0 as int] == s2[tree_rows(s2)[k].0 as int]
            && tree_rows(s1)[k].1 == tree_rows(s2)[k].1 by {
        let x = ws2[k];
        assert(is_walk(s2, x));
        lemma_carry_walk(s1, s2, p, q, x);
        assert(m[k] == carry(p, x));
        assert(m[k].last() == p[x.last() as int]);
        lemma_last_pos_distinct(s1, m[k].last() as int);
        lemma_last_pos_distinct(s2, x.last() as int);
        assert(s2[x.last() as int] == s1[p[x.last() as int] as int]);
        assert(tree_rows(s1)[k] == walk_row(s1, ws1[k]));
        assert(tree_rows(s2)[k] == walk_row(s2, ws2[k]));
    }
}

/// Whether some process in `s` has pid `p`.
fn has_pid_exec(s: &Vec<PidStat>, p: u32) -> (r: bool)
    ensures
        r == has_pid(s@, p),
{
    let mut j: usize = 0;
    while j < s.len()
        invariant
            j <= s.len(),
            forall|q: int| 0 <= q < j ==> s@[q].pid != p,
        decreases s.len() - j,
    {
        if s[j].pid == p {
            assert(s@[j as int].pid == p);
            return true;
        }
        j = j + 1;
    }
    false
}

/// The chains held by a vector of chains.
pub open spec fn walk_seqs(v: Seq<Vec<usize>>) -> Seq<Seq<usize>> {
    v.map_values(|w: Vec<usize>| w@)
}

/// `ws` holds, each once, exactly the chains whose length is at least `lo`
/// and below `hi`.
pub open spec fn lists_exactly(s: Seq<PidStat>, ws: Seq<Seq<usize>>, lo: nat, hi: nat) -> bool {
    &&& forall|k: int|
        0 <= k < ws.len() ==> is_walk(s, #[trigger] ws[k]) && lo <= ws[k].len() < hi
    &&& forall|w: Seq<usize>| #[trigger] is_walk(s, w) && lo <= w.len() < hi ==> ws.contains(w)
    &&& forall|a: int, b: int| 0 <= a < ws.len() && 0 <= b < ws.len() && a != b ==> #[trigger] ws[a] != #[trigger] ws[b]
}

/// The chains of one process each: the roots.
fn root_walks(s: &Vec<PidStat>) -> (r: Vec<Vec<usize>>)
    ensures
        lists_exactly(s@, walk_seqs(r@), 1, 2),
{
    let mut out: Vec<Vec<usize>> = Vec::new();
    let mut e: usize = 0;
    while e < s.len()
        invariant
            e <= s.len(),
            forall|k: int|
                0 <= k < out.len() ==> (#[trigger] out@[k])@.len() == 1 && out@[k]@[0] < e && is_walk(s@, out@[k]@),
            forall|a: int, b: int| 0 <= a < b < out.len() ==> (#[trigger] out@[a])@[0] < (#[trigger] out@[b])@[0],
            forall|x: usize| x < e && !has_pid(s@, #[trigger] s@[x as int].ppid) ==> walk_seqs(out@).contains(seq![x]),
        decreases s.len() - e,
    {
        if !has_pid_exec(s, s[e].ppid) {
            let ghost before = out@;
            let mut w: Vec<usize> = Vec::new();
            w.push(e);
            assert(w@ =~= seq![e]);
            out.push(w);
            proof {
                assert forall|x: usize| x < e + 1 && !has_pid(s@, #[trigger] s@[x as int].ppid) implies walk_seqs(out@).contains(seq![x]) by {
                    if x == e {
                        assert(walk_seqs(out@)[before.len() as int] == seq![x]);
                    } else {
                        assert(walk_seqs(before).contains(seq![x]));
                        let k = choose|k: int| 0 <= k < walk_seqs(before).len() && walk_seqs(before)[k] == seq![x];
                        assert(walk_seqs(out@)[k] == seq![x]);
                    }
                }
            }
        }
        e = e + 1;
    }
    proof {
        let ws = walk_seqs(out@);
        assert forall|w: Seq<usize>| #[trigger] is_walk(s@, w) && 1 <= w.len() < 2 implies ws.contains(w) by {
            assert(w =~= seq![w[0]]);
            assert(w[0] < s.len());
        }
        assert forall|a: int, b: int| 0 <= a < ws.len() && 0 <= b < ws.len() && a != b implies #[trigger] ws[a] != #[trigger] ws[b] by {
            if a < b {
                assert(out@[a]@[0] < out@[b]@[0]);
            } else {
                assert(out@[b]@[0] < out@[a]@[0]);
            }
        }
    }
    out
}


/// The chains one process longer than those of `cur`, which are the chains
/// of length `len`.
fn extend_walks(s: &Vec<PidStat>, cur: &Vec<Vec<usize>>, Ghost(len): Ghost<nat>) -> (r: Vec<Vec<usize>>)
    requires
        len >= 1,
        lists_exactly(s@, walk_seqs(cur@), len, len + 1),
    ensures
        lists_exactly(s@, walk_seqs(r@), len + 1, len + 2),
{
    let ghost cw = walk_seqs(cur@);
    let mut out: Vec<Vec<usize>> = Vec::new();
    let ghost mut pa: Seq<int> = seq![];
    let ghost mut pe: Seq<int> = seq![];
    let mut a: usize = 0;
    while a < cur.len()
        invariant
            cw == walk_seqs(cur@),
            lists_exactly(s@, cw, len, len + 1),
            len >= 1,
            a <= cur.len(),
            pa.len() == out.len(),
            pe.len() == out.len(),
            forall|q: int|
                0 <= q < out.len() ==> 0 <= #[trigger] pa[q] < a && 0 <= pe[q] < s.len() && out@[q]@
                    == cw[pa[q]].push(pe[q] as usize) && s@[pe[q]].ppid == s@[cw[pa[q]].last() as int].pid,
            forall|q1: int, q2: int|
                0 <= q1 < q2 < out.len() ==> #[trigger] pa[q1] < #[trigger] pa[q2] || (pa[q1] == pa[q2]
                    && pe[q1] < pe[q2]),
            forall|x: int, e: usize|
                0 <= x < a && e < s.len() && #[trigger] s@[e as int].ppid == s@[cw[x].last() as int].pid
                    ==> walk_seqs(out@).contains(#[trigger] cw[x].push(e)),
        decreases cur.len() - a,
    {
        let w = &cur[a];
        assert(w@ == cw[a as int]);
        assert(is_walk(s@, w@));
        let last = w[w.len() - 1];
        let mut e: usize = 0;
        while e < s.len()
            invariant
                cw == walk_seqs(cur@),
                lists_exactly(s@, cw, len, len + 1),
                len >= 1,
                a < cur.len(),
                w@ == cw[a as int],
                w@.len() >= 1,
                last == w@.last(),
                last < s.len(),
                e <= s.len(),
                pa.len() == out.len(),
                pe.len() == out.len(),
                forall|q: int|
                    0 <= q < out.len() ==> 0 <= #[trigger] pa[q] <= a && 0 <= pe[q] < s.len() && out@[q]@
                        == cw[pa[q]].push(pe[q] as usize) && s@[pe[q]].ppid == s@[cw[pa[q]].last() as int].pid,
                forall|q: int| 0 <= q < out.len() && #[trigger] pa[q] == a ==> pe[q] < e,
                forall|q1: int, q2: int|
                    0 <= q1 < q2 < out.len() ==> #[trigger] pa[q1] < #[trigger] pa[q2] || (pa[q1]
                        == pa[q2] && pe[q1] < pe[q2]),
                forall|x: int, f: usize|
                    0 <= x < a && f < s.len() && #[trigger] s@[f as int].ppid == s@[cw[x].last() as int].pid
                        ==> walk_seqs(out@).contains(#[trigger] cw[x].push(f)),
                forall|f: usize|
                    f < e && #[trigger] s@[f as int].ppid == s@[last as int].pid ==> walk_seqs(
                        out@,
                    ).contains(cw[a as int].push(f)),
            decreases s.len() - e,
        {
            if s[e].ppid == s[last].pid {
                let mut nw = w.clone();
                assert(nw@ =~= w@);
                nw.push(e);
                let ghost before = out@;
                out.push(nw);
                proof {
                    let q0 = before.len() as int;
                    pa = pa.push(a as int);
                    pe = pe.push(e as int);
                    assert(walk_seqs(out@)[q0] == cw[a as int].push(e));
                    assert forall|q: int| 0 <= q < q0 implies #[trigger] out@[q] == before[q] by {}
                    assert(out@[q0]@ == cw[pa[q0]].push(pe[q0] as usize));
                    assert forall|x: int, f: usize|
                        0 <= x < a && f < s.len() && #[trigger] s@[f as int].ppid == s@[cw[x].last() as int].pid
                            implies walk_seqs(out@).contains(#[trigger] cw[x].push(f)) by {
                        assert(walk_seqs(before).contains(cw[x].push(f)));
                        let k = choose|k: int| 0 <= k < walk_seqs(before).len() && walk_seqs(before)[k] == cw[x].push(f);
                        assert(walk_seqs(out@)[k] == cw[x].push(f));
                    }
                    assert forall|f: usize|
                        f < e + 1 && #[trigger] s@[f as int].ppid == s@[last as int].pid implies walk_seqs(
                            out@,
                        ).contains(cw[a as int].push(f)) by {
                        if f < e {
                            assert(walk_seqs(before).contains(cw[a as int].push(f)));
                            let k = choose|k: int| 0 <= k < walk_seqs(before).len() && walk_seqs(before)[k] == cw[a as int].push(f);
                            assert(walk_seqs(out@)[k] == cw[a as int].push(f));
                        }
                    }
                }
            }
            e = e + 1;
        }
        a = a + 1;
    }
    proof {
        let ws = walk_seqs(out@);
        assert forall|k: int| 0 <= k < ws.len() implies is_walk(s@, #[trigger] ws[k]) && len + 1 <= ws[k].len() < len + 2 by {
            let x = pa[k];
            assert(is_walk(s@, cw[x]));
            lemma_walk_extend(s@, cw[x], pe[k] as usize);
        }
        assert forall|w: Seq<usize>| #[trigger] is_walk(s@, w) && len + 1 <= w.len() < len + 2 implies ws.contains(w) by {
            let p = w.drop_last();
            lemma_walk_prefix(s@, w, w.len() - 1);
            assert(w.take(w.len() - 1) =~= p);
            assert(cw.contains(p));
            let x = choose|x: int| 0 <= x < cw.len() && cw[x] == p;
            let f = w.last();
            assert(f < s.len());
            assert(s@[w[w.len() - 1] as int].ppid == s@[w[w.len() - 2] as int].pid);
            assert(p.last() == w[w.len() - 2]);
            assert(w =~= cw[x].push(f));
        }
        assert forall|q1: int, q2: int| 0 <= q1 < ws.len() && 0 <= q2 < ws.len() && q1 != q2 implies #[trigger] ws[q1] != #[trigger] ws[q2] by {
            let (l, h) = if q1 < q2 {
                (q1, q2)
            } else {
                (q2, q1)
            };
            if ws[l] == ws[h] {
                assert(ws[l].drop_last() == cw[pa[l]]);
                assert(ws[h].drop_last() == cw[pa[h]]);
                assert(cw[pa[l]].push(pe[l] as usize).drop_last() =~= cw[pa[l]]);
                assert(cw[pa[h]].push(pe[h] as usize).drop_last() =~= cw[pa[h]]);
                if pa[l] != pa[h] {
                    assert(cw[pa[l]] != cw[pa[h]]);
                } else {
                    assert(ws[l].last() == pe[l]);
                    assert(ws[h].last() == pe[h]);
                }
            }
        }
    }
    out
}

/// The chains of length at most `max`, and whether there is one of length
/// `max + 1`.
fn walks_upto(s: &Vec<PidStat>, max: usize) -> (r: (Vec<Vec<usize>>, bool))
    ensures
        lists_exactly(s@, walk_seqs(r.0@), 1, max as nat + 1),
        r.1 <==> exists|w: Seq<usize>| #[trigger] is_walk(s@, w) && w.len() == max + 1,
        !r.1 ==> forall|w: Seq<usize>| #[trigger] is_walk(s@, w) ==> w.len() <= max,
{
    let mut all: Vec<Vec<usize>> = Vec::new();
    let mut cur = root_walks(s);
    let mut done: usize = 0;
    while done < max && cur.len() > 0
        invariant
            done <= max,
            lists_exactly(s@, walk_seqs(all@), 1, done as nat + 1),
            lists_exactly(s@, walk_seqs(cur@), done as nat + 1, done as nat + 2),
        decreases max - done,
    {
        let next = extend_walks(s, &cur, Ghost(done as nat + 1));
        let ghost aw = walk_seqs(all@);
        let ghost cw = walk_seqs(cur@);
        all.append(&mut cur);
        proof {
            let ws = walk_seqs(all@);
            assert(ws =~= aw + cw);
            assert forall|w: Seq<usize>| #[trigger] is_walk(s@, w) && 1 <= w.len() < done + 2 implies ws.contains(w) by {
                if w.len() < done + 1 {
                    let k = choose|k: int| 0 <= k < aw.len() && aw[k] == w;
                    assert(ws[k] == w);
                } else {
                    let k = choose|k: int| 0 <= k < cw.len() && cw[k] == w;
                    assert(ws[aw.len() + k] == w);
                }
            }
            assert forall|a: int, b: int| 0 <= a < ws.len() && 0 <= b < ws.len() && a != b implies #[trigger] ws[a] != #[trigger] ws[b] by {
                if a < aw.len() && b >= aw.len() {
                    assert(ws[a].len() < done + 1);
                    assert(ws[b] == cw[b - aw.len()]);
                } else if a >= aw.len() && b < aw.len() {
                    assert(ws[b].len() < done + 1);
                    assert(ws[a] == cw[a - aw.len()]);
                } else if a < aw.len() {
                    assert(ws[a] == aw[a] && ws[b] == aw[b]);
                } else {
                    assert(ws[a] == cw[a - aw.len()] && ws[b] == cw[b - aw.len()]);
                }
            }
            assert forall|k: int| 0 <= k < ws.len() implies is_walk(s@, #[trigger] ws[k]) && 1 <= ws[k].len() < done + 2 by {
                if k < aw.len() {
                    assert(ws[k] == aw[k]);
                } else {
                    assert(ws[k] == cw[k - aw.len()]);
                }
            }
        }
        cur = next;
        done = done + 1;
    }
    let exceeded = cur.len() > 0;
    proof {
        let cw = walk_seqs(cur@);
        if exceeded {
            assert(is_walk(s@, cw[0]));
            if done < max {
                assert(false);
            }
        } else {
            assert forall|w: Seq<usize>| #[trigger] is_walk(s@, w) implies w.len() <= done by {
                if w.len() > done {
                    lemma_walk_prefix(s@, w, done + 1);
                    assert(cw.contains(w.take(done + 1)));
                }
            }
        }
        if exceeded {
            assert(done == max);
        }
    }
    (all, exceeded)
}

/// Whether no two processes of `s` share a pid.
pub fn pids_distinct(s: &Vec<PidStat>) -> (r: bool)
    ensures
        r == distinct_pids(s@),
{
    broadcast use vstd::std_specs::hash::group_hash_axioms;

    let mut seen: HashSet<u32> = HashSet::new();
    let mut i: usize = 0;
    assert(seen@ =~= Set::new(|x: u32| exists|j: int| 0 <= j < 0 && #[trigger] s@[j].pid == x));
    while i < s.len()
        invariant
            i <= s.len(),
            seen@ == Set::new(|x: u32| exists|j: int| 0 <= j < i && #[trigger] s@[j].pid == x),
            distinct_pids(s@.take(i as int)),
        decreases s.len() - i,
    {
        let p = s[i].pid;
        let ghost before = seen@;
        if !seen.insert(p) {
            proof {
                assert(before.contains(p));
                let j = choose|j: int| 0 <= j < i && #[trigger] s@[j].pid == p;
                assert(s@[j].pid == s@[i as int].pid);
            }
            return false;
        }
        proof {
            assert forall|a: int, b: int|
                0 <= a < i + 1 && 0 <= b < i + 1 && a != b implies #[trigger] s@.take(i + 1)[a].pid
                != #[trigger] s@.take(i + 1)[b].pid by {
                if a < i && b < i {
                    assert(s@.take(i as int)[a].pid != s@.take(i as int)[b].pid);
                } else if a == i {
                    if s@[b].pid == p {
                        assert(before.contains(p));
                    }
                } else {
                    if s@[a].pid == p {
                        assert(before.contains(p));
                    }
                }
            }
        }
        i = i + 1;
        assert(seen@ =~= Set::new(|x: u32| exists|j: int| 0 <= j < i && #[trigger] s@[j].pid == x));
    }
    assert(s@.take(s.len() as int) =~= s@);
    true
}

/// Whether every chain of `stats` is at most as long as the list, which is
/// when the tree view of `stats` is finite.  Distinct pids settle it at once;
/// otherwise the chains are followed.
pub fn tree_is_finite(stats: &Vec<PidStat>) -> (r: bool)
    ensures
        r == tree_is_bounded(stats@),
{
    if pids_distinct(stats) {
        proof {
            lemma_distinct_pids_bounded(stats@);
        }
        return true;
    }
    let (_, exceeded) = walks_upto(stats, stats.len());
    proof {
        if exceeded {
            let w = choose|w: Seq<usize>| #[trigger] is_walk(stats@, w) && w.len() == stats.len() + 1;
            assert(is_walk(stats@, w));
        }
    }
    !exceeded
}

/// The sort key of a chain.
fn walk_key_exec(s: &Vec<PidStat>, w: &Vec<usize>) -> (k: Vec<u32>)
    requires
        forall|j: int| 0 <= j < w.len() ==> #[trigger] w@[j] < s.len(),
    ensures
        k@ == walk_key(s@, w@),
{
    let mut k: Vec<u32> = Vec::new();
    let mut i: usize = 0;
    assert(w@.take(0) =~= Seq::<usize>::empty());
    while i < w.len()
        invariant
            forall|j: int| 0 <= j < w.len() ==> #[trigger] w@[j] < s.len(),
            i <= w.len(),
            k@ == walk_key(s@, w@.take(i as int)),
        decreases w.len() - i,
    {
        let e = w[i];
        let ghost before = k@;
        k.push(s[e].pid);
        k.push((e as u64 / 0x1_0000_0000u64) as u32);
        k.push((e as u64 % 0x1_0000_0000u64) as u32);
        assert(w@.take(i + 1).drop_last() =~= w@.take(i as int));
        assert(k@ =~= before + step_key(s@, e));
        i = i + 1;
    }
    assert(w@.take(w.len() as int) =~= w@);
    k
}

/// The position of the last process with pid `p`.
fn last_pos_exec(s: &Vec<PidStat>, p: u32) -> (r: usize)
    requires
        has_pid(s@, p),
    ensures
        r == last_pos(s@, p),
        r < s.len(),
{
    let mut j: usize = s.len();
    assert(s@.take(j as int) =~= s@);
    while j > 0
        invariant
            j <= s.len(),
            last_pos(s@, p) == last_pos(s@.take(j as int), p),
            has_pid(s@.take(j as int), p),
        decreases j,
    {
        if s[j - 1].pid == p {
            return j - 1;
        }
        let ghost t = s@.take(j as int);
        assert(t.drop_last() =~= s@.take(j - 1));
        assert(has_pid(s@.take(j - 1), p)) by {
            let q = choose|q: int| 0 <= q < t.len() && #[trigger] t[q].pid == p;
            assert(q != j - 1);
            assert(s@.take(j - 1)[q].pid == p);
        }
        j = j - 1;
    }
    assert(has_pid(s@.take(0), p));
    0
}

/// The process tree, flattened: one row per chain from a root down, as
/// (position of the chain's last process, depth), in the order of a
/// depth-first walk that takes roots and children in increasing pid order.
/// A process listed twice under the same pid stands for both; the row of a
/// pid shows its last listing.  Processes whose parents form a cycle have no
/// row.
pub fn build_tree(stats: &Vec<PidStat>) -> (rows: Vec<(usize, usize)>)
    requires
        tree_is_bounded(stats@),
    ensures
        is_walk_listing(stats@, tree_walks(stats@)),
        rows@ == tree_rows(stats@),
{
    let ghost s = stats@;
    let (walks, _) = walks_upto(stats, stats.len());
    let ghost ws = walk_seqs(walks@);
    assert forall|w: Seq<usize>| #[trigger] is_walk(s, w) implies ws.contains(w) by {
        assert(w.len() <= s.len());
    }
    let mut keys: Vec<Vec<u32>> = Vec::new();
    let mut i: usize = 0;
    while i < walks.len()
        invariant
            ws == walk_seqs(walks@),
            s == stats@,
            lists_exactly(s, ws, 1, s.len() + 1),
            i <= walks.len(),
            keys.len() == i,
            forall|k: int| 0 <= k < i ==> (#[trigger] keys@[k])@ == walk_key(s, ws[k]),
        decreases walks.len() - i,
    {
        assert(is_walk(s, ws[i as int]));
        keys.push(walk_key_exec(stats, &walks[i]));
        i = i + 1;
    }
    let order = sort_order(&keys);
    let ghost ks = key_rows(keys@);
    let ghost sorted = order@.map_values(|o: usize| ws[o as int]);
    proof {
        assert forall|k: int| 0 <= k < sorted.len() implies is_walk(s, #[trigger] sorted[k]) by {
            assert(sorted[k] == ws[order@[k] as int]);
        }
        assert forall|w: Seq<usize>| #[trigger] is_walk(s, w) implies sorted.contains(w) by {
            assert(ws.contains(w));
            let m = choose|m: int| 0 <= m < ws.len() && ws[m] == w;
            assert(order@.contains(m as usize));
            let q = choose|q: int| 0 <= q < order.len() && order@[q] == m as usize;
            assert(sorted[q] == w);
        }
        assert forall|a: int, b: int| 0 <= a < b < sorted.len() implies lex_lt(
            walk_key(s, #[trigger] sorted[a]),
            walk_key(s, #[trigger] sorted[b]),
        ) by {
            let oa = order@[a] as int;
            let ob = order@[b] as int;
            assert(sorts_before(ks, oa, ob));
            assert(ks[oa] == walk_key(s, ws[oa]));
            assert(ks[ob] == walk_key(s, ws[ob]));
            if !lex_lt(ks[oa], ks[ob]) {
                lemma_walk_key_injective(s, ws[oa], ws[ob]);
                assert(oa != ob);
            }
        }
        assert(is_walk_listing(s, sorted));
        lemma_listing_unique(s, sorted, tree_walks(s));
    }
    let mut rows: Vec<(usize, usize)> = Vec::new();
    let mut k: usize = 0;
    while k < order.len()
        invariant
            s == stats@,
            ws == walk_seqs(walks@),
            lists_exactly(s, ws, 1, s.len() + 1),
            sorted == order@.map_values(|o: usize| ws[o as int]),
            forall|q: int| 0 <= q < order.len() ==> #[trigger] order@[q] < walks.len(),
            k <= order.len(),
            rows@ == sorted.take(k as int).map_values(|w: Seq<usize>| walk_row(s, w)),
        decreases order.len() - k,
    {
        let w = &walks[order[k]];
        assert(w@ == sorted[k as int]);
        assert(is_walk(s, w@));
        let last = w[w.len() - 1];
        assert(has_pid(s, s[last as int].pid)) by {
            assert(s[last as int].pid == s[last as int].pid);
        }
        let pos = last_pos_exec(stats, stats[last].pid);
        rows.push((pos, w.len() - 1));
        k = k + 1;
        assert(rows@ =~= sorted.take(k as int).map_values(|w: Seq<usize>| walk_row(s, w)));
    }
    assert(sorted.take(order.len() as int) =~= sorted);
    rows
}

} // verus!
