use vstd::prelude::*;

verus! {

/// `String::push`. Claimed: the string afterwards holds its old characters
/// followed by `ch`.
pub assume_specification[ String::push ](s: &mut String, ch: char)
    ensures
        final(s)@ == old(s)@.push(ch),
;

/// The characters of `s`, in order.
pub fn chars_of(s: &str) -> (v: Vec<char>)
    ensures
        v@ == s@,
{
    let mut v: Vec<char> = Vec::new();
    for c in it: s.chars()
        invariant
            v@ == it.seq().take(it.index() as int),
    {
        v.push(c);
    }
    v
}


/// A string holding the characters of `v`.
pub fn string_of(v: &Vec<char>) -> (s: String)
    ensures
        s@ == v@,
{
    let mut s = String::new();
    let mut i: usize = 0;
    while i < v.len()
        invariant
            i <= v.len(),
            s@ == v@.take(i as int),
        decreases v.len() - i,
    {
        s.push(v[i]);
        i = i + 1;
        assert(v@.take(i as int) == v@.take(i - 1).push(v@[i - 1]));
    }
    assert(v@.take(v.len() as int) == v@);
    s
}

/// Unicode `White_Space`, which is what `char::is_whitespace` tests.
pub open spec fn is_ws(c: char) -> bool {
    let n = c as u32;
    ||| 0x09 <= n <= 0x0d
    ||| n == 0x20
    ||| n == 0x85
    ||| n == 0xa0
    ||| n == 0x1680
    ||| 0x2000 <= n <= 0x200a
    ||| n == 0x2028
    ||| n == 0x2029
    ||| n == 0x202f
    ||| n == 0x205f
    ||| n == 0x3000
}

pub fn is_whitespace(c: char) -> (b: bool)
    ensures
        b == is_ws(c),
{
    let n = c as u32;
    (0x09 <= n && n <= 0x0d) || n == 0x20 || n == 0x85 || n == 0xa0 || n == 0x1680 || (0x2000
        <= n && n <= 0x200a) || n == 0x2028 || n == 0x2029 || n == 0x202f || n == 0x205f || n
        == 0x3000
}

/// The maximal runs of non-whitespace characters of `s`, left to right
/// (what `str::split_whitespace` yields).
pub open spec fn words(s: Seq<char>) -> Seq<Seq<char>>
    decreases s.len(),
{
    if s.len() == 0 {
        seq![]
    } else {
        let prev = words(s.drop_last());
        let c = s.last();
        if is_ws(c) {
            prev
        } else if s.len() >= 2 && !is_ws(s[s.len() - 2]) {
            prev.update(prev.len() - 1, prev.last().push(c))
        } else {
            prev.push(seq![c])
        }
    }
}

/// The character sequences held by a vector of character vectors.
pub open spec fn rows(v: Seq<Vec<char>>) -> Seq<Seq<char>> {
    v.map_values(|w: Vec<char>| w@)
}

/// The words of `s`, as `str::split_whitespace` splits it.
pub fn split_whitespace(s: &Vec<char>) -> (w: Vec<Vec<char>>)
    ensures
        rows(w@) == words(s@),
{
    let mut out: Vec<Vec<char>> = Vec::new();
    let mut cur: Vec<char> = Vec::new();
    let mut i: usize = 0;
    while i < s.len()
        invariant
            i <= s.len(),
            cur@.len() > 0 <==> (i > 0 && !is_ws(s@[i - 1])),
            words(s@.take(i as int)) == if cur@.len() > 0 {
                rows(out@).push(cur@)
            } else {
                rows(out@)
            },
        decreases s.len() - i,
    {
        let c = s[i];
        let ghost pre = s@.take(i as int);
        assert(s@.take(i + 1).drop_last() == pre);
        if is_whitespace(c) {
            if cur.len() > 0 {
                let ghost od = rows(out@);
                out.push(cur);
                assert(rows(out@) =~= od.push(cur@));
                cur = Vec::new();
            }
        } else {
            if cur.len() > 0 {
                cur.push(c);
            } else {
                cur.push(c);
                assert(cur@ =~= seq![c]);
            }
        }
        i = i + 1;
    }
    assert(s@.take(s.len() as int) == s@);
    if cur.len() > 0 {
        let ghost od = rows(out@);
        out.push(cur);
        assert(rows(out@) =~= od.push(cur@));
    }
    out
}


/// `s` cut at every `'\n'`: one more piece than there are newlines.
pub open spec fn segments(s: Seq<char>) -> Seq<Seq<char>>
    decreases s.len(),
{
    if s.len() == 0 {
        seq![seq![]]
    } else {
        let prev = segments(s.drop_last());
        if s.last() == '\n' {
            prev.push(seq![])
        } else {
            prev.update(prev.len() - 1, prev.last().push(s.last()))
        }
    }
}

/// A line that was ended by `"\r\n"` loses its `'\r'`.
pub open spec fn strip_cr(l: Seq<char>) -> Seq<char> {
    if l.len() > 0 && l.last() == '\r' {
        l.drop_last()
    } else {
        l
    }
}

/// The lines of `s`, as `str::lines` yields them: pieces ended by `'\n'`
/// (and an optional `'\r'` before it), plus a last unterminated piece when
/// it is not empty.
pub open spec fn lines(s: Seq<char>) -> Seq<Seq<char>> {
    let seg = segments(s);
    let done = seg.drop_last().map_values(|l: Seq<char>| strip_cr(l));
    if seg.last().len() == 0 {
        done
    } else {
        done.push(seg.last())
    }
}

fn strip_cr_exec(l: Vec<char>) -> (r: Vec<char>)
    ensures
        r@ == strip_cr(l@),
{
    let mut l = l;
    if l.len() > 0 && l[l.len() - 1] == '\r' {
        l.pop();
    }
    l
}

/// The lines of `s`, as `str::lines` splits it.
pub fn split_lines(s: &Vec<char>) -> (ls: Vec<Vec<char>>)
    ensures
        rows(ls@) == lines(s@),
{
    let mut out: Vec<Vec<char>> = Vec::new();
    let mut cur: Vec<char> = Vec::new();
    let mut i: usize = 0;
    proof {
        assert(s@.take(0) =~= Seq::<char>::empty());
    }
    while i < s.len()
        invariant
            i <= s.len(),
            segments(s@.take(i as int)).len() >= 1,
            cur@ == segments(s@.take(i as int)).last(),
            rows(out@) == segments(s@.take(i as int)).drop_last().map_values(
                |l: Seq<char>| strip_cr(l),
            ),
        decreases s.len() - i,
    {
        let c = s[i];
        let ghost pre = s@.take(i as int);
        let ghost seg = segments(pre);
        assert(s@.take(i + 1).drop_last() == pre);
        assert(s@.take(i + 1).last() == c);
        if c == '\n' {
            let line = strip_cr_exec(cur);
            let ghost od = rows(out@);
            out.push(line);
            assert(rows(out@) =~= od.push(strip_cr(seg.last())));
            assert(segments(s@.take(i + 1)).drop_last() =~= seg);
            assert(seg =~= seg.drop_last().push(seg.last()));
            assert(seg.map_values(|l: Seq<char>| strip_cr(l)) =~= seg.drop_last().map_values(
                |l: Seq<char>| strip_cr(l),
            ).push(strip_cr(seg.last())));
            cur = Vec::new();
            assert(cur@ =~= seq![]);
        } else {
            cur.push(c);
            assert(segments(s@.take(i + 1)).drop_last() =~= seg.drop_last());
        }
        i = i + 1;
    }
    assert(s@.take(s.len() as int) == s@);
    if cur.len() > 0 {
        let ghost od = rows(out@);
        out.push(cur);
        assert(rows(out@) =~= od.push(cur@));
    }
    out
}


/// The characters of `s` from `start` up to `end`.
pub fn slice_of(s: &Vec<char>, start: usize, end: usize) -> (r: Vec<char>)
    requires
        start <= end <= s.len(),
    ensures
        r@ == s@.subrange(start as int, end as int),
{
    let mut r: Vec<char> = Vec::new();
    let mut i = start;
    while i < end
        invariant
            start <= i <= end <= s.len(),
            r@ == s@.subrange(start as int, i as int),
        decreases end - i,
    {
        r.push(s[i]);
        i = i + 1;
        assert(r@ =~= s@.subrange(start as int, i as int));
    }
    r
}

/// `s` without its leading whitespace.
pub open spec fn trim_start(s: Seq<char>) -> Seq<char>
    decreases s.len(),
{
    if s.len() > 0 && is_ws(s[0]) {
        trim_start(s.drop_first())
    } else {
        s
    }
}

/// `s` without its trailing whitespace.
pub open spec fn trim_end(s: Seq<char>) -> Seq<char>
    decreases s.len(),
{
    if s.len() > 0 && is_ws(s.last()) {
        trim_end(s.drop_last())
    } else {
        s
    }
}

/// `s` without leading and trailing whitespace, as `str::trim` gives it.
pub open spec fn trim(s: Seq<char>) -> Seq<char> {
    trim_end(trim_start(s))
}

/// No whitespace at either end of `s`.
pub open spec fn is_trimmed(s: Seq<char>) -> bool {
    s.len() == 0 || (!is_ws(s[0]) && !is_ws(s.last()))
}

proof fn lemma_trim_start_at(s: Seq<char>) -> (i: int)
    ensures
        0 <= i <= s.len(),
        trim_start(s) == s.subrange(i, s.len() as int),
        forall|k: int| 0 <= k < i ==> is_ws(#[trigger] s[k]),
        i < s.len() ==> !is_ws(s[i]),
    decreases s.len(),
{
    if s.len() > 0 && is_ws(s[0]) {
        let t = s.drop_first();
        let i0 = lemma_trim_start_at(t);
        assert(t.subrange(i0, t.len() as int) =~= s.subrange(i0 + 1, s.len() as int));
        assert forall|k: int| 0 <= k < i0 + 1 implies is_ws(#[trigger] s[k]) by {
            if k > 0 {
                assert(s[k] == t[k - 1]);
            }
        }
        i0 + 1
    } else {
        assert(s.subrange(0, s.len() as int) =~= s);
        0
    }
}

proof fn lemma_trim_end_at(s: Seq<char>) -> (j: int)
    ensures
        0 <= j <= s.len(),
        trim_end(s) == s.subrange(0, j),
        forall|k: int| j <= k < s.len() ==> is_ws(#[trigger] s[k]),
        j > 0 ==> !is_ws(s[j - 1]),
    decreases s.len(),
{
    if s.len() > 0 && is_ws(s.last()) {
        let t = s.drop_last();
        let j0 = lemma_trim_end_at(t);
        assert(t.subrange(0, j0) =~= s.subrange(0, j0));
        assert forall|k: int| j0 <= k < s.len() implies is_ws(#[trigger] s[k]) by {
            if k < s.len() - 1 {
                assert(s[k] == t[k]);
            }
        }
        j0
    } else {
        assert(s.subrange(0, s.len() as int) =~= s);
        s.len() as int
    }
}

/// Trimming takes off whitespace at the ends and nothing else: what is left
/// is a stretch `s[i..j]` of `s` with only whitespace before and after it,
/// and it neither starts nor ends with whitespace.
pub proof fn lemma_trim(s: Seq<char>)
    ensures
        is_trimmed(trim(s)),
        exists|i: int, j: int|
            0 <= i <= j <= s.len() && trim(s) == s.subrange(i, j) && (forall|k: int|
                0 <= k < i ==> is_ws(#[trigger] s[k])) && (forall|k: int| j <= k < s.len() ==> is_ws(#[trigger] s[k])),
{
    let i = lemma_trim_start_at(s);
    let t = s.subrange(i, s.len() as int);
    let j = lemma_trim_end_at(t);
    assert(t.subrange(0, j) =~= s.subrange(i, i + j));
    assert forall|k: int| i + j <= k < s.len() implies is_ws(#[trigger] s[k]) by {
        assert(s[k] == t[k - i]);
    }
    if j > 0 {
        assert(t[0] == s[i]);
        assert(trim(s)[0] == t[0]);
        assert(trim(s).last() == t[j - 1]);
    }
    assert(0 <= i <= i + j <= s.len() && trim(s) == s.subrange(i, i + j));
}

/// The characters of `s` without leading and trailing whitespace.
pub fn trim_chars(s: &Vec<char>) -> (r: Vec<char>)
    ensures
        r@ == trim(s@),
{
    let mut i: usize = 0;
    assert(s@.skip(0) =~= s@);
    while i < s.len() && is_whitespace(s[i])
        invariant
            i <= s.len(),
            trim_start(s@) == trim_start(s@.skip(i as int)),
        decreases s.len() - i,
    {
        assert(s@.skip(i as int).drop_first() =~= s@.skip(i + 1));
        i = i + 1;
    }
    assert(trim_start(s@) == s@.skip(i as int));
    let mut j: usize = s.len();
    while j > i && is_whitespace(s[j - 1])
        invariant
            i <= j <= s.len(),
            trim(s@) == trim_end(s@.subrange(i as int, j as int)),
        decreases j,
    {
        assert(s@.subrange(i as int, j as int).drop_last() =~= s@.subrange(i as int, j - 1));
        j = j - 1;
    }
    assert(s@.skip(i as int) =~= s@.subrange(i as int, s.len() as int));
    slice_of(s, i, j)
}

/// The first index of `c` in `s`, if `c` occurs.
pub open spec fn first_index(s: Seq<char>, c: char) -> Option<int>
    decreases s.len(),
{
    if s.len() == 0 {
        None
    } else if s[0] == c {
        Some(0)
    } else {
        match first_index(s.drop_first(), c) {
            Some(k) => Some(k + 1),
            None => None,
        }
    }
}

pub proof fn lemma_first_index(s: Seq<char>, c: char)
    ensures
        first_index(s, c) matches Some(i) ==> 0 <= i < s.len() && s[i] == c && forall|j: int|
            0 <= j < i ==> s[j] != c,
        first_index(s, c) is None ==> forall|j: int| 0 <= j < s.len() ==> s[j] != c,
    decreases s.len(),
{
    if s.len() > 0 && s[0] != c {
        lemma_first_index(s.drop_first(), c);
        assert forall|j: int| 0 < j < s.len() implies s[j] == s.drop_first()[j - 1] by {}
    }
}

/// The last index of `c` in `s`, if `c` occurs.
pub open spec fn last_index(s: Seq<char>, c: char) -> Option<int>
    decreases s.len(),
{
    if s.len() == 0 {
        None
    } else if s.last() == c {
        Some(s.len() - 1)
    } else {
        last_index(s.drop_last(), c)
    }
}

pub proof fn lemma_last_index(s: Seq<char>, c: char)
    ensures
        last_index(s, c) matches Some(i) ==> 0 <= i < s.len() && s[i] == c && forall|j: int|
            i < j < s.len() ==> s[j] != c,
        last_index(s, c) is None ==> forall|j: int| 0 <= j < s.len() ==> s[j] != c,
    decreases s.len(),
{
    if s.len() > 0 && s.last() != c {
        lemma_last_index(s.drop_last(), c);
        assert forall|j: int| 0 <= j < s.len() - 1 implies s[j] == s.drop_last()[j] by {}
    }
}

/// Where `c` first occurs in `s` (`str::find`).
pub fn find_char(s: &Vec<char>, c: char) -> (r: Option<usize>)
    ensures
        match r {
            Some(i) => first_index(s@, c) == Some(i as int),
            None => first_index(s@, c) is None,
        },
{
    let mut i: usize = 0;
    assert(s@.skip(0) =~= s@);
    while i < s.len()
        invariant
            i <= s.len(),
            first_index(s@, c) == match first_index(s@.skip(i as int), c) {
                Some(k) => Some(k + i),
                None => None,
            },
        decreases s.len() - i,
    {
        if s[i] == c {
            return Some(i);
        }
        assert(s@.skip(i as int).drop_first() =~= s@.skip(i + 1));
        i = i + 1;
    }
    None
}

/// Where `c` last occurs in `s` (`str::rfind`).
pub fn rfind_char(s: &Vec<char>, c: char) -> (r: Option<usize>)
    ensures
        match r {
            Some(i) => last_index(s@, c) == Some(i as int),
            None => last_index(s@, c) is None,
        },
{
    let mut j: usize = s.len();
    assert(s@.take(j as int) =~= s@);
    while j > 0
        invariant
            j <= s.len(),
            last_index(s@, c) == last_index(s@.take(j as int), c),
        decreases j,
    {
        if s[j - 1] == c {
            return Some(j - 1);
        }
        assert(s@.take(j as int).drop_last() =~= s@.take(j - 1));
        j = j - 1;
    }
    None
}


/// `needle` occurs in `hay` starting at index `i`.
pub open spec fn occurs_at(hay: Seq<char>, needle: Seq<char>, i: int) -> bool {
    0 <= i && i + needle.len() <= hay.len() && hay.subrange(i, i + needle.len()) == needle
}

/// `needle` occurs somewhere in `hay` (`str::contains`).
pub open spec fn contains(hay: Seq<char>, needle: Seq<char>) -> bool {
    exists|i: int| occurs_at(hay, needle, i)
}

/// `s` begins with `p` (`str::starts_with`).
pub open spec fn starts_with(s: Seq<char>, p: Seq<char>) -> bool {
    occurs_at(s, p, 0)
}

/// Whether `needle` occurs in `hay` at index `i`.
pub fn matches_at(hay: &Vec<char>, needle: &Vec<char>, i: usize) -> (b: bool)
    ensures
        b == occurs_at(hay@, needle@, i as int),
{
    if i > hay.len() || needle.len() > hay.len() - i {
        return false;
    }
    let mut k: usize = 0;
    while k < needle.len()
        invariant
            i + needle.len() <= hay.len(),
            k <= needle.len(),
            forall|j: int| 0 <= j < k ==> hay@[i + j] == needle@[j],
        decreases needle.len() - k,
    {
        if hay[i + k] != needle[k] {
            assert(hay@.subrange(i as int, i + needle.len())[k as int] != needle@[k as int]);
            return false;
        }
        k = k + 1;
    }
    assert(hay@.subrange(i as int, i + needle.len()) =~= needle@);
    true
}

/// Whether `needle` occurs anywhere in `hay`.
pub fn contains_chars(hay: &Vec<char>, needle: &Vec<char>) -> (b: bool)
    ensures
        b == contains(hay@, needle@),
{
    if needle.len() > hay.len() {
        return false;
    }
    let end = hay.len() - needle.len();
    let mut i: usize = 0;
    while i < end
        invariant
            end == hay.len() - needle.len(),
            i <= end,
            forall|j: int| 0 <= j < i ==> !occurs_at(hay@, needle@, j),
        decreases end - i,
    {
        if matches_at(hay, needle, i) {
            return true;
        }
        i = i + 1;
    }
    matches_at(hay, needle, end)
}

/// Whether `s` begins with `p`.
pub fn starts_with_chars(s: &Vec<char>, p: &Vec<char>) -> (b: bool)
    ensures
        b == starts_with(s@, p@),
{
    matches_at(s, p, 0)
}

/// `s` cut at its first `n - 1` separators, the last piece keeping the rest
/// (`str::splitn(n, sep)` for `n >= 1`).
pub open spec fn split_n(s: Seq<char>, sep: char, n: nat) -> Seq<Seq<char>>
    decreases n,
{
    if n <= 1 {
        seq![s]
    } else {
        match first_index(s, sep) {
            None => seq![s],
            Some(k) => seq![s.take(k)] + split_n(s.skip(k + 1), sep, (n - 1) as nat),
        }
    }
}

/// The pieces of `s` that `str::splitn(n, sep)` yields, for `n >= 1`.
pub fn split_n_chars(s: &Vec<char>, sep: char, n: usize) -> (parts: Vec<Vec<char>>)
    requires
        n >= 1,
    ensures
        rows(parts@) == split_n(s@, sep, n as nat),
    decreases n,
{
    let mut out: Vec<Vec<char>> = Vec::new();
    if n > 1 {
        match find_char(s, sep) {
            Some(k) => {
                proof {
                    lemma_first_index(s@, sep);
                }
                let head = slice_of(s, 0, k);
                let tail = slice_of(s, k + 1, s.len());
                let rest = split_n_chars(&tail, sep, n - 1);
                out.push(head);
                let mut rest = rest;
                let ghost r0 = rows(rest@);
                out.append(&mut rest);
                assert(head@ =~= s@.take(k as int));
                assert(tail@ =~= s@.skip(k + 1));
                assert(rows(out@) =~= seq![head@] + r0);
                return out;
            },
            None => {},
        }
    }
    let c = slice_of(s, 0, s.len());
    assert(c@ =~= s@);
    out.push(c);
    assert(rows(out@) =~= seq![s@]);
    out
}

} // verus!
