use schema_resolver::order::chars_precede;
use schema_resolver::text::{
    are_digits, char_is_digit, char_is_space, contains, eq_str, find, find_space, from_chars,
    push_all, replace, rfind, same_chars, split_lines, starts_with_at, subvec, to_chars, trim,
};
use schema_resolver::join;

fn chars(s: &str) -> Vec<char> {
    s.chars().collect()
}

fn string(v: &Vec<char>) -> String {
    v.iter().collect()
}

#[test]
fn white_space_is_what_std_calls_white_space() {
    let mut c = '\0';
    loop {
        assert_eq!(char_is_space(c), c.is_whitespace(), "{:?}", c);
        assert_eq!(char_is_digit(c), c.is_ascii_digit(), "{:?}", c);
        if c == char::MAX {
            break;
        }
        c = char::from_u32(c as u32 + 1).unwrap_or('\u{e000}');
    }
}

#[test]
fn conversions_round_trip() {
    for s in ["", "a", "int32 x", "Größe 型\n", "\u{10ffff}\u{0}"] {
        assert_eq!(to_chars(s), chars(s));
        assert_eq!(from_chars(&chars(s)), s);
        assert_eq!(from_chars(&to_chars(s)), s);
    }
}

#[test]
fn trim_is_std_trim() {
    for s in [
        "", " ", "a", "  a  ", "\t\r\n a b \n", "\u{a0}x\u{3000}", "\u{2003}\u{2028}", "a  ",
        "  a", " a\u{200b} ",
    ] {
        assert_eq!(string(&trim(&chars(s))), s.trim(), "{:?}", s);
    }
}

#[test]
fn replace_is_std_replace() {
    for (s, from, to) in [
        ("a/msg/B", "/msg/", "/"),
        ("a/msg/msg/B", "/msg/", "/"),
        ("/msg//msg/", "/msg/", "/"),
        ("/msg/msg/msg/", "/msg/", "/"),
        ("aaaa", "aa", "b"),
        ("aaa", "aa", "aaa"),
        ("abc", "x", "y"),
        ("", "x", "y"),
        ("abc", "abc", ""),
        ("abc", "abcd", "z"),
    ] {
        assert_eq!(
            string(&replace(&chars(s), &chars(from), &chars(to))),
            s.replace(from, to),
            "{:?}",
            s
        );
    }
}

#[test]
fn replace_of_an_empty_pattern_copies() {
    for s in ["", "a", "a/msg/B"] {
        assert_eq!(string(&replace(&chars(s), &chars(""), &chars("x"))), s);
        assert_eq!(string(&replace(&chars(s), &chars(""), &chars(""))), s);
    }
}

#[test]
fn lines_are_the_runs_between_line_feeds() {
    let lines = split_lines(&chars("a\nb c\n\nd"));
    let lines: Vec<String> = lines.iter().map(string).collect();
    assert_eq!(lines, vec!["a", "b c", "", "d"]);
    assert_eq!(split_lines(&chars("")), vec![Vec::<char>::new()]);
    assert_eq!(split_lines(&chars("\n")), vec![Vec::<char>::new(), Vec::new()]);
    assert_eq!(split_lines(&chars("x\r\n")), vec![chars("x\r"), Vec::new()]);
}

#[test]
fn scanning_finds_first_and_last() {
    let v = chars("a/b/c");
    assert_eq!(find(&v, '/'), 1);
    assert_eq!(rfind(&v, '/'), Some(3));
    assert_eq!(find(&v, 'x'), 5);
    assert_eq!(rfind(&v, 'x'), None);
    assert_eq!(find(&chars(""), '/'), 0);
    assert_eq!(rfind(&chars(""), '/'), None);
    assert_eq!(find_space(&chars("ab\tc d")), 2);
    assert_eq!(find_space(&chars("abc")), 3);
    assert_eq!(find_space(&chars("")), 0);
}

#[test]
fn prefixes_and_occurrences() {
    let v = chars("geometry_msgs/msg/Transform");
    assert!(starts_with_at(&v, 0, &chars("geometry")));
    assert!(starts_with_at(&v, 13, &chars("/msg/")));
    assert!(!starts_with_at(&v, 12, &chars("/msg/")));
    assert!(starts_with_at(&v, 27, &chars("")));
    assert!(!starts_with_at(&v, 26, &chars("mm")));
    assert!(contains(&v, &chars("/msg/")));
    assert!(contains(&v, &chars("")));
    assert!(contains(&v, &chars("Transform")));
    assert!(!contains(&v, &chars("/srv/")));
    assert!(!contains(&chars("/msg"), &chars("/msg/")));
    assert!(contains(&chars(""), &chars("")));
}

#[test]
fn comparisons() {
    assert!(same_chars(&chars("abc"), &chars("abc")));
    assert!(!same_chars(&chars("abc"), &chars("abd")));
    assert!(!same_chars(&chars("abc"), &chars("ab")));
    assert!(eq_str(&chars("float64"), "float64"));
    assert!(!eq_str(&chars("float64"), "float6"));
    assert!(!eq_str(&chars("float6"), "float64"));
    assert!(!eq_str(&chars("float32"), "float64"));
    assert!(eq_str(&chars(""), ""));
    assert!(are_digits(&chars("0123456789")));
    assert!(are_digits(&chars("")));
    assert!(!are_digits(&chars("12a")));
    assert!(!are_digits(&chars("١٢")));
}

#[test]
fn copying() {
    let v = chars("hello world");
    assert_eq!(subvec(&v, 0, 5), chars("hello"));
    assert_eq!(subvec(&v, 6, 11), chars("world"));
    assert_eq!(subvec(&v, 4, 4), chars(""));
    let mut out = chars("ab");
    push_all(&mut out, &chars("cd"));
    push_all(&mut out, &chars(""));
    assert_eq!(out, chars("abcd"));
}

#[test]
fn order_is_the_order_of_strings() {
    let samples = [
        "", "a", "aa", "ab", "b", "a/msg/B", "a/msg/b", "A", "Z", "z", "é", "型", "\u{10ffff}",
        "\u{e000}", "\u{ffff}", "\u{10000}", "std_msgs/msg/Header", "std_msgs/msg/Header2",
    ];
    for a in samples {
        for b in samples {
            assert_eq!(chars_precede(&chars(a), &chars(b)), a < b, "{:?} {:?}", a, b);
        }
    }
}

#[test]
fn join_puts_the_separator_between() {
    let parts = vec!["a".to_string(), "".to_string(), "b c".to_string()];
    assert_eq!(join(&parts, "\n\n"), "a\n\n\n\nb c");
    assert_eq!(join(&vec!["only".to_string()], "\n\n"), "only");
    assert_eq!(join(&Vec::new(), "\n\n"), "");
    assert_eq!(join(&parts, ""), "ab c");
}
