use nxtop::num::{decimal_chars, parse_i64, parse_unsigned_exec};
use nxtop::text::{
    chars_of, contains_chars, find_char, rfind_char, split_lines, split_n_chars, split_whitespace,
    starts_with_chars, string_of, trim_chars,
};

const SAMPLES: &[&str] = &[
    "",
    "\n",
    "\r\n",
    "\r",
    "a",
    "a\n",
    "a\r\nb",
    "a\n\nb\n",
    "a\rb\n\r\n",
    "  lead and trail  ",
    "\t\u{a0}x\u{2003}y\u{85}z\u{3000}",
    "\u{200b}zero width is not space",
    "cpu0 1 2 3 4 5 6 7",
    "MemTotal:       16000000 kB",
    "  eth0: 1 2 3:4",
    "1234 (a) b) S 1 2",
    "ünïcödé words\u{2028}and\u{2029}lines",
    "x,y,,z,,,",
    " ,a, b ,",
];

fn strs(v: Vec<Vec<char>>) -> Vec<String> {
    v.into_iter().map(|w| w.into_iter().collect()).collect()
}

#[test]
fn lines_agree_with_str_lines() {
    for s in SAMPLES {
        let ours = strs(split_lines(&chars_of(s)));
        let std: Vec<String> = s.lines().map(|l| l.to_string()).collect();
        assert_eq!(ours, std, "{:?}", s);
    }
}

#[test]
fn words_agree_with_split_whitespace() {
    for s in SAMPLES {
        let ours = strs(split_whitespace(&chars_of(s)));
        let std: Vec<String> = s.split_whitespace().map(|l| l.to_string()).collect();
        assert_eq!(ours, std, "{:?}", s);
    }
}

#[test]
fn trim_agrees_with_str_trim() {
    for s in SAMPLES {
        let ours: String = trim_chars(&chars_of(s)).into_iter().collect();
        assert_eq!(ours, s.trim(), "{:?}", s);
    }
}

#[test]
fn splitn_agrees_with_str_splitn() {
    for s in SAMPLES {
        for n in 1..7usize {
            let ours = strs(split_n_chars(&chars_of(s), ',', n));
            let std: Vec<String> = s.splitn(n, ',').map(|l| l.to_string()).collect();
            assert_eq!(ours, std, "{:?} {}", s, n);
        }
    }
}

#[test]
fn find_agrees_with_str_find() {
    for s in SAMPLES {
        let cs = chars_of(s);
        for c in ['(', ')', ':', ',', 'a'] {
            let byte_of = |i: usize| cs[..i].iter().map(|c| c.len_utf8()).sum::<usize>();
            assert_eq!(find_char(&cs, c).map(byte_of), s.find(c), "{:?}", s);
            assert_eq!(rfind_char(&cs, c).map(byte_of), s.rfind(c), "{:?}", s);
        }
    }
}

#[test]
fn search_agrees_with_str() {
    for s in SAMPLES {
        for p in ["", "a", "cpu", "  ", "word", "1 2"] {
            assert_eq!(contains_chars(&chars_of(s), &chars_of(p)), s.contains(p), "{:?} {:?}", s, p);
            assert_eq!(starts_with_chars(&chars_of(s), &chars_of(p)), s.starts_with(p), "{:?} {:?}", s, p);
        }
        assert_eq!(string_of(&chars_of(s)), *s);
    }
}

const NUMBERS: &[&str] = &[
    "", "0", "00", "+", "-", "+0", "-0", "+-1", "-+1", "1", "42", "007", " 1", "1 ", "1a", "٣",
    "255", "256", "4294967295", "4294967296", "18446744073709551615", "18446744073709551616",
    "9223372036854775807", "9223372036854775808", "-9223372036854775808", "-9223372036854775809",
    "99999999999999999999999", "-1", "+18446744073709551615",
];

#[test]
fn numbers_agree_with_str_parse() {
    for s in NUMBERS {
        let cs = chars_of(s);
        assert_eq!(parse_unsigned_exec(&cs, u64::MAX), s.parse::<u64>().ok(), "{:?}", s);
        assert_eq!(
            parse_unsigned_exec(&cs, u32::MAX as u64).map(|v| v as u32),
            s.parse::<u32>().ok(),
            "{:?}",
            s
        );
        assert_eq!(
            parse_unsigned_exec(&cs, u8::MAX as u64).map(|v| v as u8),
            s.parse::<u8>().ok(),
            "{:?}",
            s
        );
        assert_eq!(parse_i64(&cs), s.parse::<i64>().ok(), "{:?}", s);
    }
}

#[test]
fn decimal_agrees_with_to_string() {
    for n in [0u64, 1, 9, 10, 99, 100, 12345, u32::MAX as u64, u64::MAX] {
        let ours: String = decimal_chars(n).into_iter().collect();
        assert_eq!(ours, n.to_string());
    }
}
