use vstd::prelude::*;

verus! {

/// Lexicographic "less than" on sequences of numbers, a proper prefix coming
/// first (the order of `[u32]`, and of UTF-8 text by code points).
pub open spec fn lex_lt(a: Seq<u32>, b: Seq<u32>) -> bool
    decreases a.len(),
{
    if a.len() == 0 {
        b.len() > 0
    } else if b.len() == 0 {
        false
    } else if a[0] < b[0] {
        true
    } else if a[0] > b[0] {
        false
    } else {
        lex_lt(a.drop_first(), b.drop_first())
    }
}

pub proof fn lemma_lex_irreflexive(a: Seq<u32>)
    ensures
        !lex_lt(a, a),
    decreases a.len(),
{
    if a.len() > 0 {
        lemma_lex_irreflexive(a.drop_first());
    }
}

pub proof fn lemma_lex_transitive(a: Seq<u32>, b: Seq<u32>, c: Seq<u32>)
    requires
        lex_lt(a, b),
        lex_lt(b, c),
    ensures
        lex_lt(a, c),
    decreases a.len(),
{
    if a.len() > 0 && b.len() > 0 && c.len() > 0 && a[0] == b[0] && b[0] == c[0] {
        lemma_lex_transitive(a.drop_first(), b.drop_first(), c.drop_first());
    }
}

/// Any two sequences are equal or ordered one way or the other.
pub proof fn lemma_lex_total(a: Seq<u32>, b: Seq<u32>)
    ensures
        lex_lt(a, b) || lex_lt(b, a) || a == b,
    decreases a.len(),
{
    if a.len() > 0 && b.len() > 0 && a[0] == b[0] {
        lemma_lex_total(a.drop_first(), b.drop_first());
        if a.drop_first() == b.drop_first() {
            assert(a =~= seq![a[0]] + a.drop_first());
            assert(b =~= seq![b[0]] + b.drop_first());
        }
    } else if a.len() == 0 && b.len() == 0 {
        assert(a =~= b);
    }
}

/// Whether `a` comes before `b` lexicographically.
pub fn lex_less(a: &Vec<u32>, b: &Vec<u32>) -> (r: bool)
    ensures
        r == lex_lt(a@, b@),
{
    let mut i: usize = 0;
    assert(a@.skip(0) =~= a@);
    assert(b@.skip(0) =~= b@);
    while i < a.len() && i < b.len()
        invariant
            i <= a.len(),
            i <= b.len(),
            lex_lt(a@, b@) == lex_lt(a@.skip(i as int), b@.skip(i as int)),
        decreases a.len() - i,
    {
        if a[i] < b[i] {
            return true;
        }
        if a[i] > b[i] {
            return false;
        }
        assert(a@.skip(i as int).drop_first() =~= a@.skip(i + 1));
        assert(b@.skip(i as int).drop_first() =~= b@.skip(i + 1));
        i = i + 1;
    }
    i == a.len() && i < b.len()
}

/// Item `i` sorts before item `j`: by key, and by position among equal keys.
pub open spec fn sorts_before(keys: Seq<Seq<u32>>, i: int, j: int) -> bool {
    lex_lt(keys[i], keys[j]) || (keys[i] == keys[j] && i < j)
}

/// `order` lists the positions of `keys` in the order of a stable sort by key.
pub open spec fn is_sort_order(keys: Seq<Seq<u32>>, order: Seq<usize>) -> bool {
    &&& order.len() == keys.len()
    &&& forall|k: int| 0 <= k < order.len() ==> order[k] < keys.len()
    &&& forall|a: int, b: int|
        0 <= a < b < order.len() ==> sorts_before(keys, #[trigger] order[a] as int, #[trigger] order[b] as int)
    &&& forall|m: usize| m < keys.len() ==> #[trigger] order.contains(m)
}

/// The positions of `keys` in stable-sort order (there is exactly one such
/// order).
pub open spec fn sorted_order(keys: Seq<Seq<u32>>) -> Seq<usize> {
    choose|order: Seq<usize>| is_sort_order(keys, order)
}

proof fn lemma_sorts_before_asymmetric(keys: Seq<Seq<u32>>, a: int, b: int)
    requires
        sorts_before(keys, a, b),
    ensures
        !sorts_before(keys, b, a),
{
    lemma_lex_irreflexive(keys[a]);
    lemma_lex_irreflexive(keys[b]);
    if lex_lt(keys[a], keys[b]) && lex_lt(keys[b], keys[a]) {
        lemma_lex_transitive(keys[a], keys[b], keys[a]);
    }
}

proof fn lemma_sort_orders_agree_upto(keys: Seq<Seq<u32>>, o1: Seq<usize>, o2: Seq<usize>, k: int)
    requires
        is_sort_order(keys, o1),
        is_sort_order(keys, o2),
        0 <= k < o1.len(),
    ensures
        forall|j: int| 0 <= j <= k ==> o1[j] == o2[j],
    decreases k,
{
    if k > 0 {
        lemma_sort_orders_agree_upto(keys, o1, o2, k - 1);
    }
    let x = o1[k];
    let y = o2[k];
    if x != y {
        assert(o2.contains(x));
        let j = choose|j: int| 0 <= j < o2.len() && o2[j] == x;
        assert(o1.contains(y));
        let i = choose|i: int| 0 <= i < o1.len() && o1[i] == y;
        if j < k {
            // o1[j] == o2[j] == x == o1[k]: one position twice in o1
            assert(sorts_before(keys, o1[j] as int, o1[k] as int));
            lemma_sorts_before_asymmetric(keys, x as int, x as int);
        } else if i < k {
            assert(o2[i] == o1[i]);
            assert(sorts_before(keys, o2[i] as int, o2[k] as int));
            lemma_sorts_before_asymmetric(keys, y as int, y as int);
        } else {
            assert(j > k && i > k);
            assert(sorts_before(keys, o2[k] as int, o2[j] as int));
            assert(sorts_before(keys, o1[k] as int, o1[i] as int));
            lemma_sorts_before_asymmetric(keys, y as int, x as int);
        }
    }
}

/// A stable sort by key puts the positions in exactly one order.
pub proof fn lemma_sort_order_unique(keys: Seq<Seq<u32>>, o1: Seq<usize>, o2: Seq<usize>)
    requires
        is_sort_order(keys, o1),
        is_sort_order(keys, o2),
    ensures
        o1 == o2,
{
    if o1.len() > 0 {
        lemma_sort_orders_agree_upto(keys, o1, o2, o1.len() - 1);
    }
    assert(o1 =~= o2);
}

/// The key sequences held by a vector of key vectors.
pub open spec fn key_rows(v: Seq<Vec<u32>>) -> Seq<Seq<u32>> {
    v.map_values(|k: Vec<u32>| k@)
}

/// The positions of `keys` in the order of a stable sort by key.
pub fn sort_order(keys: &Vec<Vec<u32>>) -> (order: Vec<usize>)
    ensures
        is_sort_order(key_rows(keys@), order@),
        order@ == sorted_order(key_rows(keys@)),
{
    let ghost ks = key_rows(keys@);
    let mut order: Vec<usize> = Vec::new();
    let mut i: usize = 0;
    while i < keys.len()
        invariant
            ks == key_rows(keys@),
            i <= keys.len(),
            order.len() == i,
            forall|k: int| 0 <= k < order.len() ==> order[k] < i,
            forall|a: int, b: int|
                0 <= a < b < order.len() ==> sorts_before(ks, #[trigger] order[a] as int, #[trigger] order[b] as int),
            forall|m: usize| m < i ==> #[trigger] order@.contains(m),
        decreases keys.len() - i,
    {
        let mut p: usize = 0;
        while p < order.len() && !lex_less(&keys[i], &keys[order[p]])
            invariant
                ks == key_rows(keys@),
                i < keys.len(),
                p <= order.len(),
                forall|k: int| 0 <= k < order.len() ==> order[k] < i,
                forall|q: int| 0 <= q < p ==> !lex_lt(ks[i as int], #[trigger] ks[order[q] as int]),
            decreases order.len() - p,
        {
            p = p + 1;
        }
        let ghost old_order = order@;
        proof {
            assert forall|a: int, b: int|
                0 <= a < b < old_order.len() + 1 implies sorts_before(
                ks,
                #[trigger] old_order.insert(p as int, i)[a] as int,
                #[trigger] old_order.insert(p as int, i)[b] as int,
            ) by {
                let no = old_order.insert(p as int, i);
                if a == p {
                    // everything after the new item has a larger key
                    let first = old_order[p as int] as int;
                    assert(lex_lt(ks[i as int], ks[first]));
                    if b - 1 != p {
                        assert(sorts_before(ks, first, old_order[b - 1] as int));
                        if lex_lt(ks[first], ks[old_order[b - 1] as int]) {
                            lemma_lex_transitive(ks[i as int], ks[first], ks[old_order[b - 1] as int]);
                        }
                    }
                } else if b == p {
                    // everything before the new item has a key at most as large
                    let x = old_order[a] as int;
                    assert(!lex_lt(ks[i as int], ks[x]));
                    lemma_lex_total(ks[i as int], ks[x]);
                } else if a < p && b < p {
                } else if a < p && b > p {
                    assert(no[b] == old_order[b - 1]);
                } else {
                    assert(no[a] == old_order[a - 1]);
                    assert(no[b] == old_order[b - 1]);
                }
            }
        }
        proof {
            let no = old_order.insert(p as int, i);
            assert forall|m: usize| m < i + 1 implies #[trigger] no.contains(m) by {
                if m == i {
                    assert(no[p as int] == i);
                } else {
                    assert(old_order.contains(m));
                    let k0 = choose|k0: int| 0 <= k0 < old_order.len() && old_order[k0] == m;
                    if k0 < p {
                        assert(no[k0] == m);
                    } else {
                        assert(no[k0 + 1] == m);
                    }
                }
            }
        }
        order.insert(p, i);
        i = i + 1;
    }
    proof {
        assert(is_sort_order(ks, order@));
        lemma_sort_order_unique(ks, order@, sorted_order(ks));
    }
    order
}

} // verus!
