use chunker::chars::{
    all_to_chars, append_chars, byte_len_within, from_chars, is_whitespace, to_chars, utf8_width,
};
use chunker::words::{
    count_words, join_range, separated_range, split_words, trim, trim_whitespace,
};

fn chars(s: &str) -> Vec<char> {
    s.chars().collect()
}

fn text(v: &Vec<char>) -> String {
    v.iter().collect()
}

#[test]
fn whitespace_is_what_std_calls_whitespace() {
    let mut code: u32 = 0;
    while code <= 0x10FFFF {
        if let Some(c) = char::from_u32(code) {
            assert_eq!(is_whitespace(c), c.is_whitespace(), "U+{:04X}", code);
        }
        code += 1;
    }
}

#[test]
fn width_is_the_utf8_length_of_every_char() {
    let mut code: u32 = 0;
    while code <= 0x10FFFF {
        if let Some(c) = char::from_u32(code) {
            assert_eq!(utf8_width(c), c.len_utf8(), "U+{:04X}", code);
        }
        code += 1;
    }
}

#[test]
fn width_at_the_edges() {
    assert_eq!(utf8_width('\u{7F}'), 1);
    assert_eq!(utf8_width('\u{80}'), 2);
    assert_eq!(utf8_width('\u{7FF}'), 2);
    assert_eq!(utf8_width('\u{800}'), 3);
    assert_eq!(utf8_width('\u{FFFF}'), 3);
    assert_eq!(utf8_width('\u{10000}'), 4);
}

#[test]
fn byte_len_within_counts_bytes_not_chars() {
    assert_eq!(byte_len_within(&chars(""), 0), Some(0));
    assert_eq!(byte_len_within(&chars("abc"), 3), Some(3));
    assert_eq!(byte_len_within(&chars("abc"), 2), None);
    assert_eq!(byte_len_within(&chars("h\u{e9}llo"), 6), Some(6));
    assert_eq!(byte_len_within(&chars("h\u{e9}llo"), 5), None);
    assert_eq!(byte_len_within(&chars("\u{1F600}"), 4), Some(4));
    assert_eq!(byte_len_within(&chars("\u{1F600}"), 3), None);
    assert_eq!(byte_len_within(&chars("abc"), usize::MAX), Some(3));
}

#[test]
fn chars_and_strings_round_trip() {
    for s in ["", "abc", "h\u{e9}llo w\u{f6}rld", "\u{1F1F7}\u{1F1FA} flag", " \t\n"] {
        assert_eq!(to_chars(s), chars(s));
        assert_eq!(from_chars(&chars(s)), s.to_string());
        assert_eq!(from_chars(&to_chars(s)), s.to_string());
    }
}

#[test]
fn lists_of_strings_become_lists_of_chars() {
    let list = vec!["one".to_string(), "".to_string(), "tw\u{f6}".to_string()];
    let as_chars = all_to_chars(&list);
    assert_eq!(as_chars, vec![chars("one"), chars(""), chars("tw\u{f6}")]);
    assert_eq!(all_to_chars(&Vec::new()), Vec::<Vec<char>>::new());
}

#[test]
fn append_chars_appends() {
    let mut dst = chars("ab");
    append_chars(&mut dst, &chars("cd"));
    assert_eq!(dst, chars("abcd"));
    append_chars(&mut dst, &chars(""));
    assert_eq!(dst, chars("abcd"));
}

#[test]
fn trim_whitespace_collapses_runs() {
    assert_eq!(trim_whitespace("  hello   world \n"), "hello world");
    assert_eq!(trim_whitespace("a\tb\nc\r\nd"), "a b c d");
    assert_eq!(trim_whitespace("single"), "single");
    assert_eq!(trim_whitespace("a b"), "a b");
}

#[test]
fn trim_whitespace_of_nothing_is_nothing() {
    assert_eq!(trim_whitespace(""), "");
    assert_eq!(trim_whitespace("   "), "");
    assert_eq!(trim_whitespace("\n\t\r "), "");
}

#[test]
fn trim_whitespace_knows_unicode_whitespace() {
    assert_eq!(trim_whitespace("a\u{a0}b"), "a b");
    assert_eq!(trim_whitespace("\u{3000}a\u{2003}\u{2003}b\u{2028}"), "a b");
    assert_eq!(trim_whitespace("a\u{85}b"), "a b");
    // a zero-width space is no whitespace
    assert_eq!(trim_whitespace("a\u{200b}b"), "a\u{200b}b");
}

#[test]
fn trim_whitespace_keeps_other_chars() {
    assert_eq!(trim_whitespace(" h\u{e9}llo,  w\u{f6}rld! "), "h\u{e9}llo, w\u{f6}rld!");
}

#[test]
fn trim_whitespace_twice_is_once() {
    for s in ["", "  a  b  ", "a\n\n\nb\tc", "   ", "x", " \u{a0}x\u{a0} y "] {
        let once = trim_whitespace(s);
        let twice = trim_whitespace(once.as_str());
        assert_eq!(twice, once);
    }
}

#[test]
fn trim_whitespace_is_split_and_join() {
    for s in ["  a  b  ", "one\ttwo\nthree", "", " \u{1680}x ", "a  \u{2009} b"] {
        let want = s.split_whitespace().collect::<Vec<_>>().join(" ");
        assert_eq!(trim_whitespace(s), want);
    }
}

#[test]
fn count_words_counts_runs() {
    assert_eq!(count_words(&chars("")), 0);
    assert_eq!(count_words(&chars("   ")), 0);
    assert_eq!(count_words(&chars("one")), 1);
    assert_eq!(count_words(&chars(" one  two\tthree\n")), 3);
    assert_eq!(count_words(&chars("a.b,c d")), 2);
}

#[test]
fn split_words_gives_the_words() {
    assert_eq!(split_words(&chars("")), Vec::<Vec<char>>::new());
    assert_eq!(split_words(&chars(" \n ")), Vec::<Vec<char>>::new());
    assert_eq!(split_words(&chars("one")), vec![chars("one")]);
    assert_eq!(
        split_words(&chars("  one two\t\tthree ")),
        vec![chars("one"), chars("two"), chars("three")]
    );
}

#[test]
fn split_words_is_split_whitespace() {
    for s in ["a b", "  lead", "trail  ", "m\u{a0}n", "x\ny\rz", ""] {
        let got: Vec<String> = split_words(&chars(s)).iter().map(text).collect();
        let want: Vec<String> = s.split_whitespace().map(String::from).collect();
        assert_eq!(got, want);
        assert_eq!(count_words(&chars(s)), want.len());
    }
}

#[test]
fn trim_removes_both_ends_only() {
    assert_eq!(text(&trim(&chars("  a  b  "))), "a  b");
    assert_eq!(text(&trim(&chars("a"))), "a");
    assert_eq!(text(&trim(&chars(""))), "");
    assert_eq!(text(&trim(&chars(" \t\n"))), "");
    assert_eq!(text(&trim(&chars("\u{a0}x y\u{3000}"))), "x y");
}

#[test]
fn trim_is_str_trim() {
    for s in ["  a  b  ", "\n\nline\n", "none", " ", "", "\u{2028}z"] {
        assert_eq!(text(&trim(&chars(s))), s.trim());
    }
}

#[test]
fn join_range_puts_one_space_between() {
    let parts = vec![chars("a"), chars("bc"), chars("d"), chars("")];
    assert_eq!(text(&join_range(&parts, 0, 3)), "a bc d");
    assert_eq!(text(&join_range(&parts, 1, 2)), "bc");
    assert_eq!(text(&join_range(&parts, 2, 2)), "");
    assert_eq!(text(&join_range(&parts, 2, 4)), "d ");
    assert_eq!(text(&join_range(&parts, 0, 0)), "");
}

#[test]
fn separated_range_uses_the_separator() {
    let parts = vec![chars("a"), chars(""), chars("b")];
    assert_eq!(text(&separated_range(&parts, 0, 3, ',')), "a,,b");
    assert_eq!(text(&separated_range(&parts, 1, 2, ',')), "");
    assert_eq!(text(&separated_range(&parts, 0, 2, '\n')), "a\n");
}
