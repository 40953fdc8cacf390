use vstd::prelude::*;

verus! {

/// An ASCII decimal digit.
pub open spec fn is_digit(c: char) -> bool {
    48 <= (c as u32) <= 57
}

pub open spec fn digit_value(c: char) -> nat {
    ((c as u32) - 48) as nat
}

/// Every character of `d` is a decimal digit.
pub open spec fn all_digits(d: Seq<char>) -> bool {
    forall|i: int| 0 <= i < d.len() ==> is_digit(#[trigger] d[i])
}

/// The number that the decimal digits `d` spell, most significant first.
pub open spec fn digits_value(d: Seq<char>) -> nat
    decreases d.len(),
{
    if d.len() == 0 {
        0
    } else {
        digits_value(d.drop_last()) * 10 + digit_value(d.last())
    }
}

/// The digits that an unsigned number is read from: an optional leading `'+'`
/// is dropped.
pub open spec fn unsigned_digits(s: Seq<char>) -> Seq<char> {
    if s.len() > 0 && s[0] == '+' {
        s.drop_first()
    } else {
        s
    }
}

/// What `str::parse` gives for an unsigned integer type whose largest value
/// is `max`: the value of one or more decimal digits after an optional `'+'`,
/// when it is at most `max`.
pub open spec fn parse_unsigned(s: Seq<char>, max: nat) -> Option<nat> {
    let d = unsigned_digits(s);
    if d.len() > 0 && all_digits(d) && digits_value(d) <= max {
        Some(digits_value(d))
    } else {
        None
    }
}

/// What `str::parse::<i64>` gives: an optional sign, then one or more
/// decimal digits, with the value in the range of `i64`.
pub open spec fn parse_signed(s: Seq<char>) -> Option<int> {
    if s.len() > 0 && s[0] == '-' {
        let d = s.drop_first();
        if d.len() > 0 && all_digits(d) && digits_value(d) <= 0x8000_0000_0000_0000 {
            Some(-digits_value(d))
        } else {
            None
        }
    } else {
        match parse_unsigned(s, 0x7fff_ffff_ffff_ffff) {
            Some(v) => Some(v as int),
            None => None,
        }
    }
}

/// The value of `u64` text, or the default when it does not parse.
pub open spec fn u64_or(s: Seq<char>, default: u64) -> u64 {
    match parse_unsigned(s, u64::MAX as nat) {
        Some(v) => v as u64,
        None => default,
    }
}

/// The value of `u32` text, or the default when it does not parse.
pub open spec fn u32_or(s: Seq<char>, default: u32) -> u32 {
    match parse_unsigned(s, u32::MAX as nat) {
        Some(v) => v as u32,
        None => default,
    }
}

/// The value of `i64` text, or the default when it does not parse.
pub open spec fn i64_or(s: Seq<char>, default: i64) -> i64 {
    match parse_signed(s) {
        Some(v) => v as i64,
        None => default,
    }
}

/// A longer run of digits is worth at least as much as its prefix.
pub proof fn lemma_digits_value_prefix(d: Seq<char>, k: int)
    requires
        0 <= k <= d.len(),
    ensures
        digits_value(d) >= digits_value(d.take(k)),
    decreases d.len(),
{
    if k < d.len() {
        lemma_digits_value_prefix(d.drop_last(), k);
        assert(d.drop_last().take(k) =~= d.take(k));
    } else {
        assert(d.take(k) =~= d);
    }
}

/// The value of the decimal digits `s[start..]`, when they are all digits and
/// their value is at most `max`.
fn digits_from(s: &Vec<char>, start: usize, max: u64) -> (r: Option<u64>)
    requires
        start <= s.len(),
    ensures
        ({
            let d = s@.skip(start as int);
            match r {
                Some(v) => all_digits(d) && digits_value(d) <= max && v == digits_value(d),
                None => !(all_digits(d) && digits_value(d) <= max),
            }
        }),
{
    let ghost d = s@.skip(start as int);
    let mut acc: u128 = 0;
    let mut i = start;
    while i < s.len()
        invariant
            start <= i <= s.len(),
            d == s@.skip(start as int),
            acc <= max,
            all_digits(d.take(i - start)),
            acc == digits_value(d.take(i - start)),
        decreases s.len() - i,
    {
        let c = s[i];
        let n = c as u32;
        if n < 48 || n > 57 {
            assert(d[i - start] == c);
            return None;
        }
        let ghost k = (i - start) as int;
        assert(d.take(k + 1).drop_last() =~= d.take(k));
        assert(d.take(k + 1).last() == c);
        let next = acc * 10 + (n - 48) as u128;
        if next > max as u128 {
            proof {
                if all_digits(d) {
                    lemma_digits_value_prefix(d, k + 1);
                }
            }
            return None;
        }
        acc = next;
        i = i + 1;
        assert(all_digits(d.take(i - start))) by {
            assert forall|j: int| 0 <= j < d.take(k + 1).len() implies is_digit(
                #[trigger] d.take(k + 1)[j],
            ) by {
                if j < k {
                    assert(d.take(k + 1)[j] == d.take(k)[j]);
                }
            }
        }
    }
    assert(d.take(s.len() - start) =~= d);
    Some(acc as u64)
}

/// `str::parse` for an unsigned integer type whose largest value is `max`.
pub fn parse_unsigned_exec(s: &Vec<char>, max: u64) -> (r: Option<u64>)
    ensures
        match r {
            Some(v) => parse_unsigned(s@, max as nat) == Some(v as nat),
            None => parse_unsigned(s@, max as nat) is None,
        },
{
    let start: usize = if s.len() > 0 && s[0] == '+' {
        1
    } else {
        0
    };
    assert(unsigned_digits(s@) =~= s@.skip(start as int));
    if start >= s.len() {
        return None;
    }
    digits_from(s, start, max)
}

/// `str::parse::<u64>`, with `default` in place of an error.
pub fn parse_u64_or(s: &Vec<char>, default: u64) -> (v: u64)
    ensures
        v == u64_or(s@, default),
{
    match parse_unsigned_exec(s, u64::MAX) {
        Some(v) => v,
        None => default,
    }
}

/// `str::parse::<u32>`, with `default` in place of an error.
pub fn parse_u32_or(s: &Vec<char>, default: u32) -> (v: u32)
    ensures
        v == u32_or(s@, default),
{
    match parse_unsigned_exec(s, u32::MAX as u64) {
        Some(v) => v as u32,
        None => default,
    }
}

/// `str::parse::<i64>`.
pub fn parse_i64(s: &Vec<char>) -> (r: Option<i64>)
    ensures
        match r {
            Some(v) => parse_signed(s@) == Some(v as int),
            None => parse_signed(s@) is None,
        },
{
    if s.len() > 0 && s[0] == '-' {
        if s.len() < 2 {
            return None;
        }
        assert(s@.drop_first() =~= s@.skip(1));
        match digits_from(s, 1, 0x8000_0000_0000_0000u64) {
            Some(v) => {
                if v == 0x8000_0000_0000_0000u64 {
                    Some(i64::MIN)
                } else {
                    Some(-(v as i64))
                }
            },
            None => None,
        }
    } else {
        match parse_unsigned_exec(s, 0x7fff_ffff_ffff_ffffu64) {
            Some(v) => Some(v as i64),
            None => None,
        }
    }
}

/// `str::parse::<i64>`, with `default` in place of an error.
pub fn parse_i64_or(s: &Vec<char>, default: i64) -> (v: i64)
    ensures
        v == i64_or(s@, default),
{
    match parse_i64(s) {
        Some(v) => v,
        None => default,
    }
}

/// The decimal digit for `d < 10`.
pub open spec fn digit_char(d: nat) -> char {
    if d == 0 {
        '0'
    } else if d == 1 {
        '1'
    } else if d == 2 {
        '2'
    } else if d == 3 {
        '3'
    } else if d == 4 {
        '4'
    } else if d == 5 {
        '5'
    } else if d == 6 {
        '6'
    } else if d == 7 {
        '7'
    } else if d == 8 {
        '8'
    } else {
        '9'
    }
}

/// The decimal notation of `n`, without leading zeros (what `{}` prints).
pub open spec fn decimal(n: nat) -> Seq<char>
    decreases n,
{
    if n < 10 {
        seq![digit_char(n)]
    } else {
        decimal(n / 10).push(digit_char(n % 10))
    }
}

fn digit_char_exec(d: u64) -> (c: char)
    requires
        d < 10,
    ensures
        c == digit_char(d as nat),
{
    if d == 0 {
        '0'
    } else if d == 1 {
        '1'
    } else if d == 2 {
        '2'
    } else if d == 3 {
        '3'
    } else if d == 4 {
        '4'
    } else if d == 5 {
        '5'
    } else if d == 6 {
        '6'
    } else if d == 7 {
        '7'
    } else if d == 8 {
        '8'
    } else {
        '9'
    }
}

/// The decimal notation of `n`.
pub fn decimal_chars(n: u64) -> (r: Vec<char>)
    ensures
        r@ == decimal(n as nat),
    decreases n,
{
    if n < 10 {
        let mut v = Vec::new();
        v.push(digit_char_exec(n));
        assert(v@ =~= seq![digit_char(n as nat)]);
        v
    } else {
        let mut v = decimal_chars(n / 10);
        v.push(digit_char_exec(n % 10));
        v
    }
}

/// Decimal notation reads back as the number it was written from: its
/// characters are digits, it does not start with `'+'`, and they spell `n`.
pub proof fn lemma_decimal_value(n: nat)
    ensures
        decimal(n).len() > 0,
        all_digits(decimal(n)),
        decimal(n)[0] != '+',
        digits_value(decimal(n)) == n,
        unsigned_digits(decimal(n)) == decimal(n),
    decreases n,
{
    if n >= 10 {
        lemma_decimal_value(n / 10);
        let d = decimal(n);
        let p = decimal(n / 10);
        assert(d == p.push(digit_char(n % 10)));
        assert(d.drop_last() =~= p);
        assert forall|i: int| 0 <= i < d.len() implies is_digit(#[trigger] d[i]) by {
            if i < p.len() {
                assert(d[i] == p[i]);
            }
        }
        assert(d[0] == p[0]);
        assert(digit_value(digit_char(n % 10)) == n % 10);
        assert(d.last() == digit_char(n % 10));
        assert(digits_value(d) == digits_value(p) * 10 + digit_value(d.last()));
        assert((n / 10) * 10 + n % 10 == n) by (nonlinear_arith);
    } else {
        let d = decimal(n);
        assert(d.drop_last() =~= Seq::<char>::empty());
        assert(digit_value(digit_char(n)) == n);
        assert(digits_value(d) == digits_value(d.drop_last()) * 10 + digit_value(d.last()));
    }
}

/// `u64` text written in decimal reads back as the number.
pub proof fn lemma_u64_or_decimal(v: u64, default: u64)
    ensures
        u64_or(decimal(v as nat), default) == v,
{
    lemma_decimal_value(v as nat);
}

/// `u32` text written in decimal reads back as the number.
pub proof fn lemma_u32_or_decimal(v: u32, default: u32)
    ensures
        u32_or(decimal(v as nat), default) == v,
{
    lemma_decimal_value(v as nat);
}

} // verus!
