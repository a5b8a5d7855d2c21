use tmux_leap::text::{
    chars_equal, chars_of, lines_of, render_lines, starts_with, str_equal, str_less, string_of,
    string_of_range, trim,
};

fn lines(items: &[&str]) -> Vec<String> {
    items.iter().map(|s| s.to_string()).collect()
}

#[test]
fn characters_round_trip() {
    let text = "a/b é~.\u{1F600}";
    let chars = chars_of(text);
    assert_eq!(chars, text.chars().collect::<Vec<char>>());
    assert_eq!(string_of(&chars), text);
    assert_eq!(string_of(&Vec::new()), "");
    assert_eq!(string_of_range(&chars, 2, 5), "b é");
    assert_eq!(string_of_range(&chars, 3, 3), "");
}

#[test]
fn equality_of_characters() {
    assert!(str_equal("abc", "abc"));
    assert!(!str_equal("abc", "abd"));
    assert!(!str_equal("abc", "ab"));
    assert!(str_equal("", ""));
    assert!(chars_equal(&vec!['a'], &vec!['a']));
    assert!(!chars_equal(&vec!['a'], &vec![]));
}

#[test]
fn prefixes() {
    assert!(starts_with(&chars_of("/home/u/x"), &chars_of("/home/u")));
    assert!(starts_with(&chars_of("abc"), &chars_of("")));
    assert!(starts_with(&chars_of("abc"), &chars_of("abc")));
    assert!(!starts_with(&chars_of("ab"), &chars_of("abc")));
    assert!(!starts_with(&chars_of("xbc"), &chars_of("ab")));
}

#[test]
fn order_is_that_of_strings() {
    let samples = ["", "a", "ab", "b", "B", "~", "/", "é", "z", "a b", "\u{1F600}", "aa"];
    for a in samples {
        for b in samples {
            assert_eq!(str_less(a, b), a < b, "{a:?} {b:?}");
        }
    }
}

#[test]
fn trim_takes_white_space_from_both_ends() {
    assert_eq!(trim("  ~/a b \n"), "~/a b");
    assert_eq!(trim("\t\r\nx\u{A0}\u{3000}"), "x");
    assert_eq!(trim("x"), "x");
    assert_eq!(trim(" \n "), "");
    assert_eq!(trim(""), "");
    let samples = [" a ", "\u{85}a", "\u{1680}b\u{2003}", "\u{200B}c", "\u{2028}d\u{2029}", "\u{1F}e"];
    for s in samples {
        assert_eq!(trim(s), s.trim());
    }
}

#[test]
fn lines_end_at_line_feeds() {
    assert_eq!(lines_of("a\nb\nc"), lines(&["a", "b", "c"]));
    assert_eq!(lines_of("a\nb\n"), lines(&["a", "b"]));
    assert_eq!(lines_of("a\r\nb\r\n"), lines(&["a", "b"]));
    assert_eq!(lines_of("a\n\nb"), lines(&["a", "", "b"]));
    assert_eq!(lines_of("\n"), lines(&[""]));
    assert_eq!(lines_of(""), Vec::<String>::new());
    assert_eq!(lines_of("a\rb\n"), lines(&["a\rb"]));
    assert_eq!(lines_of("a\r"), lines(&["a\r"]));
    assert_eq!(lines_of("a\r\r\n"), lines(&["a\r"]));
    let samples = ["x", "x\n", "\n\n", "\r\n", "\r", "a\nb\r", "~/a\n/tmp/b --depth 1\n"];
    for s in samples {
        let expected: Vec<String> = s.lines().map(|l| l.to_string()).collect();
        assert_eq!(lines_of(s), expected);
    }
}

#[test]
fn lines_are_written_with_line_feeds() {
    assert_eq!(render_lines(&lines(&["~/a", "/tmp/b --depth 1"])), "~/a\n/tmp/b --depth 1\n");
    assert_eq!(render_lines(&Vec::new()), "");
    assert_eq!(render_lines(&lines(&[""])), "\n");
}

#[test]
fn written_lines_read_back() {
    let all = lines(&["~/a", "", "/tmp/b --depth 1"]);
    assert_eq!(lines_of(&render_lines(&all)), all);
}
