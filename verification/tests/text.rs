use llmperf_rs::bytes::clip_text;
use llmperf_rs::number::{decimal_text, hex_text, parse_chars, parse_u32};
use llmperf_rs::text::{
    join_texts, repeat_char, split_chars, split_lines, split_words, strip_repeated_chars,
    text_contains, text_starts_with, to_chars, to_text, trim_text,
};

fn strings(list: Vec<Vec<char>>) -> Vec<String> {
    list.iter().map(|c| to_text(c)).collect()
}

#[test]
fn trim_is_that_of_std() {
    for s in ["", " ", " a ", "\u{3000}你\u{a0}", "\n\r\tx y\u{2028}", "\u{200b}a"] {
        assert_eq!(trim_text(s), s.trim());
    }
}

#[test]
fn white_space_is_that_of_std() {
    let mut all = String::new();
    for c in (0..0x11_0000u32).filter_map(char::from_u32) {
        if c.is_whitespace() {
            all.push(c);
        }
    }
    assert_eq!(trim_text(&all), "");
    for c in (0..0x1_0000u32).filter_map(char::from_u32) {
        if !c.is_whitespace() {
            assert_eq!(trim_text(&c.to_string()).chars().count(), 1);
        }
    }
}

#[test]
fn lines_are_those_of_std() {
    for s in ["", "a", "a\n", "a\r\nb", "\n\n", "a\rb\n", "a\n\r\nb\r", "x\n\ny\n"] {
        let found = strings(split_lines(&to_chars(s)));
        assert_eq!(found, s.lines().collect::<Vec<_>>(), "{:?}", s);
    }
}

#[test]
fn words_are_those_of_std() {
    for s in ["", "  ", "a", " a  b\tc\n", "你 好\u{3000}吗"] {
        let found = strings(split_words(&to_chars(s)));
        assert_eq!(found, s.split_whitespace().collect::<Vec<_>>());
    }
}

#[test]
fn pieces_are_those_of_std() {
    for s in ["", ":", "a:b", ":a::b:"] {
        let found = strings(split_chars(&to_chars(s), ':'));
        assert_eq!(found, s.split(':').collect::<Vec<_>>());
    }
}

#[test]
fn search_is_that_of_std() {
    for (s, p) in [("", ""), ("abc", "bc"), ("abc", "ac"), ("ab", "abc"), ("aab", "ab"), ("a", "")] {
        assert_eq!(text_contains(s, p), s.contains(p));
        assert_eq!(text_starts_with(s, p), s.starts_with(p));
    }
}

#[test]
fn repeated_prefix_goes() {
    let strip = |s: &str| to_text(&strip_repeated_chars(&to_chars(s), &to_chars("ab")));
    assert_eq!(strip("ababac"), "ac");
    assert_eq!(strip("xab"), "xab");
}

#[test]
fn join_and_repeat() {
    let parts = vec!["a".to_string(), "".to_string(), "b".to_string()];
    assert_eq!(join_texts(&parts, ", "), "a, , b");
    assert_eq!(join_texts(&vec![], ", "), "");
    assert_eq!(repeat_char('-', 3), "---");
}

#[test]
fn numbers_as_text() {
    for n in [0u128, 9, 10, 4294967296, u64::MAX as u128 + 1, u128::MAX] {
        assert_eq!(decimal_text(n), n.to_string());
    }
    assert_eq!(hex_text(255), "00000000000000ff");
}

#[test]
fn text_as_numbers() {
    for s in ["", "0", "+5", "-5", "007", "4294967295", "4294967296", "1x", "+", "٣", "1 "] {
        assert_eq!(parse_u32(&to_chars(s)), s.parse::<u32>().ok(), "{:?}", s);
        assert_eq!(parse_chars(&to_chars(s), u64::MAX), s.parse::<u64>().ok(), "{:?}", s);
    }
    let big = "18446744073709551616";
    assert_eq!(parse_chars(&to_chars(big), u64::MAX), None);
    let max = "18446744073709551615";
    assert_eq!(parse_chars(&to_chars(max), u64::MAX), Some(u64::MAX));
}

#[test]
fn clipping_keeps_whole_characters() {
    assert_eq!(clip_text("abcdef", 4), "abcd");
    assert_eq!(clip_text("abc", 4), "abc");
    assert_eq!(clip_text("你好吗", 4), "你");
    assert_eq!(clip_text("你好吗", 2), "");
    assert_eq!(clip_text("a你", 4), "a你");
}

#[test]
fn decimals_read_back() {
    for n in [0u64, 7, 10, 1024, 99_999, u64::MAX] {
        assert_eq!(parse_chars(&to_chars(&decimal_text(n as u128)), u64::MAX), Some(n));
    }
}
