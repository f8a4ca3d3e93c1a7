use mcping_api::minecraft::text;

const SAMPLES: [&str; 12] = [
    "",
    "abc",
    "  abc  ",
    "\t\n a\u{3000}b \u{2003}",
    "\u{85}x\u{A0}",
    "a,b,,c",
    ",",
    "汉字 §a test",
    "\u{1F600}",
    "\u{200B}zero width is kept\u{200B}",
    "A\u{7F}B\u{9F}",
    "\u{2028}\u{2029}",
];

#[test]
fn trimming_agrees_with_the_standard_library() {
    for s in SAMPLES {
        assert_eq!(text::trim(s), s.trim());
    }
}

#[test]
fn character_classes_agree_with_the_standard_library() {
    for n in 0..0x3100u32 {
        if let Some(c) = char::from_u32(n) {
            assert_eq!(text::is_whitespace(c), c.is_whitespace(), "{n:x}");
            assert_eq!(text::is_control(c), c.is_control(), "{n:x}");
            assert_eq!(text::is_ascii_digit(c), c.is_ascii_digit());
            assert_eq!(text::is_ascii_hexdigit(c), c.is_ascii_hexdigit());
            assert_eq!(text::to_ascii_lowercase(c), c.to_ascii_lowercase());
        }
    }
}

#[test]
fn splitting_agrees_with_the_standard_library() {
    for s in SAMPLES {
        for sep in [',', ' ', 'a', '§'] {
            let want: Vec<String> = s.split(sep).map(|x| x.to_string()).collect();
            assert_eq!(text::split(s, sep), want);
        }
        for pat in [",", "a", "bc", "字 §", "base64,", ""] {
            let want = s.split_once(pat).map(|(a, b)| (a.to_string(), b.to_string()));
            assert_eq!(text::split_once(s, pat), want);
        }
    }
}

#[test]
fn joining_undoes_splitting() {
    for s in SAMPLES {
        assert_eq!(text::join(&text::split(s, ','), ","), s);
    }
    assert_eq!(text::join(&Vec::new(), ","), "");
    assert_eq!(text::join(&vec!["a".to_string()], ","), "a");
}

#[test]
fn numbers_are_read_as_the_standard_library_reads_them() {
    for s in [
        "", "0", "-0", "+0", "+", "-", "--1", "+-1", "7", "007", "-42", "+42", " 1", "1 ", "1.0",
        "65535", "65536", "-1", "2147483647", "2147483648", "-2147483648", "-2147483649",
        "9223372036854775807", "9223372036854775808", "-9223372036854775808",
        "-9223372036854775809", "18446744073709551615", "18446744073709551616",
        "99999999999999999999999999", "１", "1e3", "0x1",
    ] {
        assert_eq!(text::parse_i64(s), s.parse::<i64>().ok(), "{s}");
        assert_eq!(text::parse_i32(s), s.parse::<i32>().ok(), "{s}");
        assert_eq!(text::parse_u16(s), s.parse::<u16>().ok(), "{s}");
        assert_eq!(text::parse_usize(s), s.parse::<usize>().ok(), "{s}");
    }
}

#[test]
fn numbers_are_written_as_the_standard_library_writes_them() {
    for n in [0u128, 9, 10, 99, 100, 1000, 65535, u64::MAX as u128, u128::MAX] {
        assert_eq!(text::decimal_of(n), n.to_string());
    }
    for n in [0i64, 1, -1, 10, -10, i64::MAX, i64::MIN] {
        assert_eq!(text::signed_decimal_of(n), n.to_string());
        assert_eq!(text::parse_i64(&text::signed_decimal_of(n)), Some(n));
    }
}

#[test]
fn small_operations() {
    assert_eq!(text::lowercase("BeDRock Ä"), "bedrock Ä");
    assert_eq!(text::without_whitespace(" a\nb\u{3000}c "), "abc");
    assert_eq!(text::concat("ab", "cd"), "abcd");
    assert!(text::same("x", "x"));
    assert!(!text::same("x", "xy"));
    assert!(!text::same("x", "X"));
}

#[test]
fn order_agrees_with_the_standard_library() {
    for a in SAMPLES {
        for b in SAMPLES {
            assert_eq!(text::is_before(a, b), a < b);
        }
    }
}
