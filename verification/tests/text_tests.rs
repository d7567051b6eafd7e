use madenon::text::{parse_usize, split_args, str_eq, str_lt, strip, trim, unescape, usize_to_string};

#[test]
fn lib_splitting() {
    assert_eq!(split_args("ab cd   e", 4), vec!["ab", "cd", "e"]);
    assert_eq!(split_args("ab cd   e    f", 4), vec!["ab", "cd", "e", "f"]);
    assert_eq!(split_args("ab cd   e    f  g", 4), vec!["ab", "cd", "e", "f  g"]);
}

#[test]
fn lib_unescaping() {
    assert_eq!(
        unescape("My cousin\\'s voice is coming from the alarm clock."),
        "My cousin\'s voice is coming from the alarm clock."
    )
}

#[test]
fn main_splitting() {
    assert_eq!(split_args("ab cd   e", 4), vec!["ab", "cd", "e"]);
    assert_eq!(split_args("ab cd   e    f", 4), vec!["ab", "cd", "e", "f"]);
    assert_eq!(split_args("ab cd   e    f  g", 4), vec!["ab", "cd", "e", "f  g"]);
}

#[test]
fn main_unescaping() {
    assert_eq!(
        unescape("My cousin\\'s voice is coming from the alarm clock."),
        "My cousin\'s voice is coming from the alarm clock."
    )
}

#[test]
fn unescape_strips_one_quote_pair() {
    assert_eq!(unescape("\"hello\""), "hello");
    assert_eq!(unescape("'hi'"), "hi");
    assert_eq!(unescape("\"'x'\""), "x");
    assert_eq!(unescape("plain"), "plain");
    assert_eq!(unescape("a\\\\b"), "a\\b");
    assert_eq!(unescape("end\\"), "end");
}

#[test]
fn unescape_idempotent_on_clean_strings() {
    let x = "no backslashes here";
    let once = unescape(x);
    assert_eq!(once, x);
    let twice = unescape(&once);
    assert_eq!(twice, once);
}

#[test]
fn splitting_edges() {
    assert_eq!(split_args("", 4), Vec::<&str>::new());
    assert_eq!(split_args("   ", 4), Vec::<&str>::new());
    assert_eq!(split_args("one", 4), vec!["one"]);
    assert_eq!(split_args("a b c d e", 3), vec!["a", "b", "c d e"]);
}

#[test]
fn trimming_and_stripping() {
    assert_eq!(trim("  x y\t"), "x y");
    assert_eq!(trim(""), "");
    assert_eq!(strip("\"ab\"", '"'), "ab");
    assert_eq!(strip("\"ab", '"'), "ab");
    assert_eq!(strip("ab", '"'), "ab");
}

#[test]
fn number_parsing() {
    assert_eq!(parse_usize("0"), Some(0));
    assert_eq!(parse_usize("42"), Some(42));
    assert_eq!(parse_usize("+7"), Some(7));
    assert_eq!(parse_usize(""), None);
    assert_eq!(parse_usize("+"), None);
    assert_eq!(parse_usize("4x"), None);
    assert_eq!(parse_usize("99999999999999999999999999"), None);
}

#[test]
fn number_rendering() {
    assert_eq!(usize_to_string(0), "0");
    assert_eq!(usize_to_string(10), "10");
    assert_eq!(usize_to_string(90125), "90125");
}

#[test]
fn lexicographic_order_is_by_raw_strings() {
    assert!(str_lt("10", "9"));
    assert!(str_lt("abc", "abd"));
    assert!(!str_lt("b", "b"));
    assert!(str_lt("b", "ba"));
    assert!(str_eq("same", "same"));
    assert!(!str_eq("same", "sa me"));
}
