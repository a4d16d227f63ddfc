use go_updater::text::{
    char_is_whitespace, find_char, first_word_len, leading_matches, leading_whitespace, nth_word,
    parse_number, push_decimal, same_chars, same_text, split_first, to_chars, trimmed_end,
    NumberError,
};
use go_updater::utils::get_stdout;

fn chars(s: &str) -> Vec<char> {
    s.chars().collect()
}

#[test]
fn to_chars_keeps_every_character() {
    assert_eq!(to_chars(""), Vec::<char>::new());
    assert_eq!(to_chars("go1.21"), vec!['g', 'o', '1', '.', '2', '1']);
    assert_eq!(to_chars("é√\u{10ffff}"), vec!['é', '√', '\u{10ffff}']);
}

#[test]
fn same_text_compares_contents() {
    assert!(same_text("", ""));
    assert!(same_text("linux", "linux"));
    assert!(!same_text("linux", "linuX"));
    assert!(!same_text("linux", "linu"));
    assert!(!same_text("", "a"));
    assert!(same_chars(&chars("ab"), &chars("ab")));
    assert!(!same_chars(&chars("ab"), &chars("ba")));
}

#[test]
fn whitespace_is_unicode_white_space() {
    let mut c = '\0';
    loop {
        assert_eq!(char_is_whitespace(c), c.is_whitespace());
        if c == char::MAX {
            break;
        }
        c = match char::from_u32(c as u32 + 1) {
            Some(next) => next,
            None => '\u{e000}',
        };
    }
}

#[test]
fn trimming_agrees_with_std() {
    let inputs = ["", " ", "a", " a ", "\t\na b\r\n", "\u{3000}x\u{2003}\u{85}", "x\u{200b}", "  "];
    for text in inputs {
        let cs = chars(text);
        let end = trimmed_end(&cs);
        assert_eq!(cs[..end].iter().collect::<String>(), text.trim_end());
        let start = leading_whitespace(&cs);
        assert_eq!(cs[start..].iter().collect::<String>(), text.trim_start());
    }
}

#[test]
fn words_agree_with_std() {
    let inputs = ["", "  ", "go", "go version go1.21.4 linux/amd64\n", " a\tb\n\nc  d ", "x\u{a0}y"];
    for text in inputs {
        let cs = chars(text);
        for k in 0..6 {
            let expected: Option<Vec<char>> = text.split_whitespace().nth(k).map(chars);
            assert_eq!(nth_word(&cs, k).map(|w| w.to_vec()), expected);
        }
    }
    assert_eq!(first_word_len(&chars("go version")), 2);
    assert_eq!(first_word_len(&chars(" go")), 0);
    assert_eq!(first_word_len(&chars("")), 0);
}

#[test]
fn splitting_agrees_with_std() {
    let inputs = ["", ".", "1.2.3", "..", "abc", "a.", ".a"];
    for text in inputs {
        let cs = chars(text);
        let (head, tail) = split_first(&cs, '.');
        let mut pieces = text.splitn(2, '.');
        assert_eq!(head.to_vec(), chars(pieces.next().unwrap()));
        assert_eq!(tail.to_vec(), chars(pieces.next().unwrap_or("")));
        assert_eq!(find_char(&cs, '.'), text.find('.').unwrap_or(text.len()));
    }
}

#[test]
fn leading_matches_agree_with_std() {
    let inputs = ["", "go", "gogo1", "g", "ogo", "go1go", "temp_temp_1", "gog"];
    for text in inputs {
        for prefix in ["go", "temp_", "g"] {
            let cs = chars(text);
            let n = leading_matches(&cs, &chars(prefix));
            assert_eq!(cs[n..].iter().collect::<String>(), text.trim_start_matches(prefix));
        }
    }
    assert_eq!(leading_matches(&chars("abc"), &chars("")), 0);
}

#[test]
fn parse_number_agrees_with_std() {
    let inputs = [
        "", "0", "1", "+1", "-1", "+", "-", "++1", "+-1", "1+", "0000", "255", "256", "65535",
        "65536", "4294967295", "4294967296", "18446744073709551615", "18446744073709551616",
        "99999999999999999999999999999", " 1", "1 ", "1_000", "0x10", "１２", "1.5",
    ];
    for text in inputs {
        let cs = chars(text);
        assert_eq!(parse_number(&cs, u64::MAX).ok(), text.parse::<u64>().ok());
        assert_eq!(parse_number(&cs, u32::MAX as u64).ok(), text.parse::<u32>().ok().map(u64::from));
        assert_eq!(parse_number(&cs, u16::MAX as u64).ok(), text.parse::<u16>().ok().map(u64::from));
        assert_eq!(parse_number(&cs, u8::MAX as u64).ok(), text.parse::<u8>().ok().map(u64::from));
    }
}

#[test]
fn parse_number_errors() {
    assert_eq!(parse_number(&chars(""), 10), Err(NumberError::Empty));
    assert_eq!(parse_number(&chars("+"), 10), Err(NumberError::InvalidDigit));
    assert_eq!(parse_number(&chars("1a"), 10), Err(NumberError::InvalidDigit));
    assert_eq!(parse_number(&chars("99999a"), 10), Err(NumberError::InvalidDigit));
    assert_eq!(parse_number(&chars("11"), 10), Err(NumberError::Overflow));
    assert_eq!(parse_number(&chars("10"), 10), Ok(10));
    assert_eq!(parse_number(&chars("1"), 0), Err(NumberError::Overflow));
    assert_eq!(parse_number(&chars("000"), 0), Ok(0));
}

#[test]
fn push_decimal_spells_numbers() {
    for n in [0u64, 1, 9, 10, 11, 99, 100, 101, 12345, 1 << 32, u64::MAX - 1, u64::MAX] {
        let mut out = String::from("n=");
        push_decimal(&mut out, n);
        assert_eq!(out, format!("n={}", n));
        assert_eq!(parse_number(&chars(&out[2..]), u64::MAX), Ok(n));
    }
}

#[test]
fn get_stdout_decodes_utf8() {
    assert_eq!(get_stdout(b"go version go1.21.4\n".to_vec()), Some(String::from("go version go1.21.4\n")));
    assert_eq!(get_stdout(Vec::new()), Some(String::new()));
    assert_eq!(get_stdout("é√\u{10ffff}".as_bytes().to_vec()), Some(String::from("é√\u{10ffff}")));
}

#[test]
fn get_stdout_rejects_bad_utf8() {
    assert_eq!(get_stdout(vec![0xff]), None);
    assert_eq!(get_stdout(vec![b'a', 0xc3]), None);
    assert_eq!(get_stdout(vec![0xed, 0xa0, 0x80]), None);
    assert_eq!(get_stdout(vec![0xc0, 0x80]), None);
}
