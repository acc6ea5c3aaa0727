use chat_server::text::{
    chars_of, copy_range, ends_with, find_char, last_part_start, matches_at, prefix_end, push_all,
    replace_all, same_text, separates_words, split_at, split_lines, split_words, starts_with,
    string_of, strings_of, word_end,
};

fn chars(s: &str) -> Vec<char> {
    s.chars().collect()
}

fn texts(parts: Vec<Vec<char>>) -> Vec<String> {
    parts.into_iter().map(|p| p.into_iter().collect()).collect()
}

#[test]
fn chars_of_gives_each_character() {
    assert_eq!(chars_of("a\u{e9}\u{20ac}z"), vec!['a', '\u{e9}', '\u{20ac}', 'z']);
    assert_eq!(chars_of(""), Vec::<char>::new());
}

#[test]
fn string_of_puts_characters_together() {
    assert_eq!(string_of(&['h', '\u{e9}', '!']), "h\u{e9}!");
    assert_eq!(string_of(&[]), "");
}

#[test]
fn strings_of_keeps_the_order() {
    let parts = vec![chars("one"), chars(""), chars("three")];
    assert_eq!(strings_of(&parts), vec!["one", "", "three"]);
}

#[test]
fn copy_range_takes_the_half_open_range() {
    let s = chars("abcdef");
    assert_eq!(copy_range(&s, 1, 4), chars("bcd"));
    assert_eq!(copy_range(&s, 2, 2), chars(""));
    assert_eq!(copy_range(&s, 0, 6), s);
}

#[test]
fn find_char_finds_the_first_from_the_start_index() {
    let s = chars("a=b=c");
    assert_eq!(find_char(&s, 0, '='), 1);
    assert_eq!(find_char(&s, 1, '='), 1);
    assert_eq!(find_char(&s, 2, '='), 3);
    assert_eq!(find_char(&s, 4, '='), 5);
    assert_eq!(find_char(&s, 5, '='), 5);
    assert_eq!(find_char(&s, 0, 'x'), 5);
}

#[test]
fn prefix_end_is_the_length_of_the_prefix() {
    let s = chars("Accept: text/html");
    assert_eq!(prefix_end(&s, "Accept: "), Some(8));
    assert_eq!(prefix_end(&s, ""), Some(0));
    assert_eq!(prefix_end(&s, "accept"), None);
    assert_eq!(prefix_end(&chars("Acc"), "Accept"), None);
}

#[test]
fn starts_with_agrees_with_std() {
    let cases = [("data=1", "data"), ("dat", "data"), ("", ""), ("xdata", "data"), ("data", "data")];
    for (s, p) in cases {
        assert_eq!(starts_with(&chars(s), p), s.starts_with(p), "{:?} {:?}", s, p);
    }
}

#[test]
fn ends_with_agrees_with_std() {
    let cases = [
        ("/website/a.png", ".png"),
        ("png", ".png"),
        (".png", ".png"),
        ("/a.pngx", ".png"),
        ("", ""),
        ("abc", ""),
    ];
    for (s, p) in cases {
        assert_eq!(ends_with(&chars(s), p), s.ends_with(p), "{:?} {:?}", s, p);
    }
}

#[test]
fn same_text_wants_every_character() {
    assert!(same_text(&chars("css"), "css"));
    assert!(!same_text(&chars("cs"), "css"));
    assert!(!same_text(&chars("csss"), "css"));
    assert!(!same_text(&chars("cSs"), "css"));
    assert!(same_text(&chars(""), ""));
}

#[test]
fn separates_words_knows_the_five_spaces() {
    for c in [' ', '\t', '\n', '\u{c}', '\r'] {
        assert!(separates_words(c));
    }
    for c in ['a', '\0', '\u{b}', '\u{a0}', '/'] {
        assert!(!separates_words(c));
    }
    for code in 0u8..=127 {
        assert_eq!(separates_words(code as char), code.is_ascii_whitespace());
    }
}

#[test]
fn split_lines_agrees_with_std() {
    let cases = [
        "",
        "one",
        "one\n",
        "one\ntwo",
        "one\r\ntwo\r\n",
        "one\r\n\r\nbody",
        "\n",
        "\n\n",
        "\r\n",
        "a\rb\nc",
        "foo\nbar\n\r\nbaz\r",
        "tail\r",
        "x\r\r\ny",
    ];
    for s in cases {
        let expected: Vec<String> = s.lines().map(|l| l.to_string()).collect();
        assert_eq!(texts(split_lines(&chars(s))), expected, "{:?}", s);
    }
}

#[test]
fn split_lines_keeps_a_carriage_return_at_the_very_end() {
    assert_eq!(texts(split_lines(&chars("a\r\nb\r"))), vec!["a", "b\r"]);
}

#[test]
fn split_words_agrees_with_std() {
    let cases = [
        "",
        " ",
        "GET / HTTP/1.1",
        "  GET\t/index.html  HTTP/1.1 ",
        "one",
        "a\u{c}b\rc\nd",
        "non\u{a0}breaking space",
    ];
    for s in cases {
        let expected: Vec<String> = s.split_ascii_whitespace().map(|w| w.to_string()).collect();
        assert_eq!(texts(split_words(&chars(s))), expected, "{:?}", s);
    }
}

#[test]
fn word_end_stops_at_white_space() {
    let s = chars("GET /x");
    assert_eq!(word_end(&s, 0), 3);
    assert_eq!(word_end(&s, 3), 3);
    assert_eq!(word_end(&s, 4), 6);
    assert_eq!(word_end(&s, 6), 6);
}

#[test]
fn split_at_agrees_with_std() {
    let cases = ["", ",", "a", "a,b", "a,,b", ",a,", "text/html, image/png", "a.b.c"];
    for s in cases {
        let expected: Vec<String> = s.split(',').map(|w| w.to_string()).collect();
        assert_eq!(texts(split_at(&chars(s), ',')), expected, "{:?}", s);
    }
}

#[test]
fn split_at_gives_one_more_piece_than_separators() {
    assert_eq!(texts(split_at(&chars("a,b,"), ',')), vec!["a", "b", ""]);
    assert_eq!(texts(split_at(&chars(""), ',')), vec![""]);
}

#[test]
fn last_part_start_agrees_with_std() {
    let cases = ["", "a", "a.b", "a.b.c", ".", "a.", ".a", "/website/style.css", "..", "no dots"];
    for s in cases {
        let c = chars(s);
        let at = last_part_start(&c, '.');
        let got: String = c[at..].iter().collect();
        assert_eq!(got, s.split('.').last().unwrap(), "{:?}", s);
    }
}

#[test]
fn matches_at_compares_in_place() {
    let s = chars("ab$CHAT");
    let p = chars("$CHAT");
    assert!(matches_at(&s, 2, &p));
    assert!(!matches_at(&s, 1, &p));
    assert!(!matches_at(&s, 3, &p));
    assert!(!matches_at(&s, 7, &p));
    assert!(matches_at(&s, 7, &[]));
}

#[test]
fn push_all_appends_in_order() {
    let mut v = vec![1u8, 2];
    push_all(&mut v, &[3, 4, 5]);
    assert_eq!(v, vec![1, 2, 3, 4, 5]);
    push_all(&mut v, &[]);
    assert_eq!(v, vec![1, 2, 3, 4, 5]);
}

#[test]
fn replace_all_agrees_with_std() {
    let cases = [
        ("", "$CHAT", "x"),
        ("$CHAT", "$CHAT", "hello"),
        ("a$CHATb$CHAT", "$CHAT", "<br>"),
        ("$CHA$CHAT", "$CHAT", "!"),
        ("$$CHAT", "$CHAT", "!"),
        ("aaaa", "aa", "b"),
        ("aaa", "aa", "b"),
        ("abc", "x", "y"),
        ("$CHAT", "$CHAT", ""),
        ("$CHAT$CHAT", "$CHAT", "$CHAT$"),
    ];
    for (s, p, w) in cases {
        let got: String = replace_all(&chars(s), &chars(p), &chars(w)).into_iter().collect();
        assert_eq!(got, s.replace(p, w), "{:?} {:?} {:?}", s, p, w);
    }
}

#[test]
fn replace_all_leaves_the_text_alone_for_an_empty_pattern() {
    assert_eq!(replace_all(&chars("abc"), &[], &chars("-")), chars("abc"));
}
