use std::collections::{HashMap, HashSet};
use nxtop::num::{decimal_chars, parse_i64, parse_unsigned_exec};
use nxtop::order::{lex_less, sort_order};
use nxtop::proc::PidStat;
use nxtop::text::{chars_of, contains_chars, split_lines, split_n_chars, split_whitespace, trim_chars};
use nxtop::tree::{build_tree, pids_distinct, tree_is_finite};

fn p(pid: u32, ppid: u32) -> PidStat {
    PidStat { pid, name: String::new(), state: 'S', ppid, utime: 0, stime: 0, threads: 1, rss: 0 }
}

fn strs(v: Vec<Vec<char>>) -> Vec<String> {
    v.into_iter().map(|w| w.into_iter().collect()).collect()
}

#[test]
fn tree_depth_first_by_pid() {
    let stats = vec![p(10, 1), p(1, 0), p(5, 1), p(7, 5), p(3, 99), p(20, 21), p(21, 20)];
    let rows = build_tree(&stats);
    assert_eq!(rows, vec![(1, 0), (2, 1), (3, 2), (0, 1), (4, 0)]);
}

#[test]
fn tree_self_parent_is_hidden() {
    let stats = vec![p(4, 4), p(2, 0), p(6, 2), p(3, 2)];
    assert_eq!(build_tree(&stats), vec![(1, 0), (3, 1), (2, 1)]);
}

#[test]
fn tree_with_repeated_pids() {
    let twice_root = vec![p(5, 0), p(5, 0), p(6, 5)];
    assert!(tree_is_finite(&twice_root));
    assert_eq!(build_tree(&twice_root), vec![(1, 0), (2, 1), (1, 0), (2, 1)]);
    let twice_child = vec![p(1, 0), p(7, 1), p(7, 1)];
    assert_eq!(build_tree(&twice_child), vec![(0, 0), (2, 1), (2, 1)]);
}

#[test]
fn tree_that_never_ends() {
    let looping = vec![p(1, 0), p(2, 1), p(1, 2)];
    assert!(!tree_is_finite(&looping));
    let fine = vec![p(10, 1), p(1, 0), p(5, 1), p(20, 21), p(21, 20)];
    assert!(tree_is_finite(&fine));
}

#[test]
fn tree_of_nothing() {
    assert!(build_tree(&vec![]).is_empty());
}

#[test]
fn sort_is_stable_and_lexicographic() {
    let keys = vec![vec![2, 1], vec![1], vec![2], vec![1], vec![], vec![1, 5]];
    assert_eq!(sort_order(&keys), vec![4, 1, 3, 5, 2, 0]);
    assert!(lex_less(&vec![1, 2], &vec![1, 3]));
    assert!(lex_less(&vec![1], &vec![1, 0]));
    assert!(!lex_less(&vec![1, 0], &vec![1]));
    assert!(!lex_less(&vec![4], &vec![4]));
}

#[test]
fn words_and_lines() {
    let w = split_whitespace(&chars_of("  a bc\t\u{3000}d  "));
    assert_eq!(strs(w), vec!["a", "bc", "d"]);
    assert!(split_whitespace(&chars_of("   ")).is_empty());
    let l = split_lines(&chars_of("one\r\ntwo\n\nthree\r"));
    assert_eq!(strs(l), vec!["one", "two", "", "three\r"]);
    assert_eq!(strs(split_lines(&chars_of("x\n"))), vec!["x"]);
    assert!(split_lines(&chars_of("")).is_empty());
}

#[test]
fn trim_and_search() {
    let t: String = trim_chars(&chars_of(" \t mid dle \n")).into_iter().collect();
    assert_eq!(t, "mid dle");
    assert!(contains_chars(&chars_of("firefox"), &chars_of("fox")));
    assert!(contains_chars(&chars_of("abc"), &chars_of("")));
    assert!(!contains_chars(&chars_of("ab"), &chars_of("abc")));
    let parts = split_n_chars(&chars_of("a,b,c,d,e,f"), ',', 5);
    assert_eq!(strs(parts), vec!["a", "b", "c", "d", "e,f"]);
    assert_eq!(strs(split_n_chars(&chars_of("a,b"), ',', 5)), vec!["a", "b"]);
}

#[test]
fn number_text_both_ways() {
    assert_eq!(parse_unsigned_exec(&chars_of("18446744073709551615"), u64::MAX), Some(u64::MAX));
    assert_eq!(parse_unsigned_exec(&chars_of("18446744073709551616"), u64::MAX), None);
    assert_eq!(parse_unsigned_exec(&chars_of("256"), 255), None);
    assert_eq!(parse_unsigned_exec(&chars_of(" 1"), 255), None);
    assert_eq!(parse_i64(&chars_of("-9223372036854775808")), Some(i64::MIN));
    assert_eq!(parse_i64(&chars_of("9223372036854775808")), None);
    assert_eq!(parse_i64(&chars_of("+12")), Some(12));
    assert_eq!(parse_i64(&chars_of("-")), None);
    assert_eq!(parse_i64(&chars_of("--1")), None);
    let d: String = decimal_chars(1234567890).into_iter().collect();
    assert_eq!(d, "1234567890");
    let z: String = decimal_chars(0).into_iter().collect();
    assert_eq!(z, "0");
}

/// The depth-first walk over a stack, as a plain reading of the tree view.
fn stack_walk(procs: &[(u32, u32)]) -> Vec<(usize, usize)> {
    let all_pids: HashSet<u32> = procs.iter().map(|p| p.0).collect();
    let idx_by_pid: HashMap<u32, usize> = procs.iter().enumerate().map(|(i, p)| (p.0, i)).collect();
    let mut children: HashMap<u32, Vec<u32>> = HashMap::new();
    for p in procs {
        if all_pids.contains(&p.1) {
            children.entry(p.1).or_default().push(p.0);
        }
    }
    let mut roots: Vec<u32> = procs.iter().filter(|p| !all_pids.contains(&p.1)).map(|p| p.0).collect();
    roots.sort_unstable();
    let mut result = Vec::new();
    let mut stack: Vec<(u32, usize)> = roots.into_iter().rev().map(|pid| (pid, 0)).collect();
    while let Some((pid, depth)) = stack.pop() {
        if let Some(&idx) = idx_by_pid.get(&pid) {
            result.push((idx, depth));
            if let Some(child_pids) = children.get(&pid) {
                let mut sorted = child_pids.clone();
                sorted.sort_unstable();
                for child in sorted.into_iter().rev() {
                    stack.push((child, depth + 1));
                }
            }
        }
    }
    result
}

#[test]
fn tree_matches_stack_walk() {
    let mut seed: u64 = 0x2545_f491_4f6c_dd1d;
    let mut next = |m: u64| {
        seed = seed.wrapping_mul(6364136223846793005).wrapping_add(1442695040888963407);
        (seed >> 33) % m
    };
    let mut checked = 0;
    for _ in 0..3000 {
        let n = next(8) as usize;
        let procs: Vec<(u32, u32)> = (0..n).map(|_| (next(7) as u32, next(8) as u32)).collect();
        let stats: Vec<PidStat> = procs.iter().map(|&(pid, ppid)| p(pid, ppid)).collect();
        if tree_is_finite(&stats) {
            assert_eq!(build_tree(&stats), stack_walk(&procs), "{:?}", procs);
            checked += 1;
        }
    }
    assert!(checked > 1000);
}

fn pid_depths(stats: &Vec<PidStat>) -> Vec<(u32, usize)> {
    build_tree(stats).iter().map(|&(i, d)| (stats[i].pid, d)).collect()
}

#[test]
fn tree_order_ignores_input_order() {
    let stats = vec![p(10, 1), p(1, 0), p(5, 1), p(7, 5), p(3, 99), p(20, 21), p(21, 20), p(8, 5)];
    let expected = vec![(1, 0), (5, 1), (7, 2), (8, 2), (10, 1), (3, 0)];
    assert_eq!(pid_depths(&stats), expected);
    let mut reversed = stats.clone();
    reversed.reverse();
    assert_eq!(pid_depths(&reversed), expected);
    let mut rotated = stats.clone();
    rotated.rotate_left(3);
    assert_eq!(pid_depths(&rotated), expected);
}

#[test]
fn distinct_pids_are_seen() {
    assert!(pids_distinct(&vec![p(3, 0), p(1, 3), p(2, 3)]));
    assert!(!pids_distinct(&vec![p(3, 0), p(1, 3), p(3, 1)]));
    assert!(pids_distinct(&vec![]));
    let looping_distinct = vec![p(1, 2), p(2, 1)];
    assert!(pids_distinct(&looping_distinct));
    assert!(tree_is_finite(&looping_distinct));
    assert!(build_tree(&looping_distinct).is_empty());
}
