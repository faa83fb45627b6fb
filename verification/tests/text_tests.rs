use grind::text::{
    contains, ends_with, eq_ignore_ascii_case, from_chars, join_strings, replace, split,
    starts_with, str_eq, to_ascii_lowercase, to_chars,
};

#[test]
fn chars_round_trip() {
    let chars = to_chars("a-é");
    assert_eq!(chars, vec!['a', '-', 'é']);
    assert_eq!(from_chars(&chars), "a-é");
}

#[test]
fn replace_behaves_as_the_standard_library() {
    let cases = vec![
        ("a.b.c", ".", "/"),
        ("aaa", "aa", "b"),
        ("abc", "", "-"),
        ("", "", "-"),
        ("", "x", "y"),
        ("${a}${a}", "${a}", "1"),
        ("abcabc", "bc", ""),
        ("x86_64", "x86", "x32"),
    ];
    for (s, pat, to) in cases {
        assert_eq!(replace(s, pat, to), s.replace(pat, to), "{:?} {:?} {:?}", s, pat, to);
    }
}

#[test]
fn split_behaves_as_the_standard_library() {
    for s in ["a/b", "/a//b/", "", "abc", "/"] {
        let expected: Vec<String> = s.split('/').map(|p| p.to_string()).collect();
        assert_eq!(split(s, &vec!['/']), expected);
    }
    assert_eq!(split("1.2-3_4", &vec!['.', '-', '_']), vec!["1", "2", "3", "4"]);
}

#[test]
fn searching_finds_what_is_there() {
    assert!(starts_with("abc", "ab"));
    assert!(starts_with("abc", ""));
    assert!(!starts_with("abc", "bc"));
    assert!(!starts_with("a", "ab"));
    assert!(ends_with("abc", "bc"));
    assert!(ends_with("abc", ""));
    assert!(!ends_with("abc", "ab"));
    assert!(contains("optional=true", "true"));
    assert!(contains("abc", ""));
    assert!(!contains("tru", "true"));
    assert!(str_eq("a", "a"));
    assert!(!str_eq("a", "b"));
}

#[test]
fn joining_puts_the_separator_between() {
    let parts = vec!["-g".to_string(), "-O".to_string(), "".to_string()];
    assert_eq!(join_strings(&parts, " "), "-g -O ");
    assert_eq!(join_strings(&Vec::new(), " "), "");
    assert_eq!(join_strings(&vec!["x".to_string()], ", "), "x");
}

#[test]
fn lower_case_touches_ascii_letters_only() {
    assert_eq!(to_ascii_lowercase("AbC-É1"), "abc-É1");
    assert!(eq_ignore_ascii_case("List", "lIST"));
    assert!(!eq_ignore_ascii_case("list", "lists"));
}
