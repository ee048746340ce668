use ion_win::methods::{
    basename, bytes, call_array_method, call_string_method, chars_method, escape, extension, filename, find, join, len, len_bytes, lines, or, parent, regex_replace, repeat, replace, replacen, reverse_arr, reverse_str, split, split_at, subst, to_lowercase, to_uppercase, unescape, MethodArg,
};

fn s(text: &str) -> MethodArg {
    MethodArg::Str(text.to_string())
}
fn a(items: &[&str]) -> MethodArg {
    MethodArg::Arr(items.iter().map(|i| i.to_string()).collect())
}

#[test]
fn path_methods_match_manual() {
    assert_eq!(
        basename(&[s("/parent/filename.ext")]).unwrap(),
        "filename.ext"
    );
    assert_eq!(extension(&[s("/parent/filename.ext")]).unwrap(), "ext");
    assert_eq!(filename(&[s("/parent/filename.ext")]).unwrap(), "filename");
    assert_eq!(
        parent(&[s("/root/parent/filename.ext")]).unwrap(),
        "/root/parent"
    );
}

#[test]
fn join_matches_manual() {
    let arr = a(&["1", "2", "3", "4", "5"]);
    assert_eq!(join(&[arr.clone()]).unwrap(), "1 2 3 4 5");
    assert_eq!(join(&[arr, s(", ")]).unwrap(), "1, 2, 3, 4, 5");
}

#[test]
fn find_matches_manual() {
    assert_eq!(find(&[s("FOOBAR"), s("OB")]).unwrap(), "2");
    assert_eq!(find(&[s("FOOBAR"), s("ob")]).unwrap(), "-1");
}

#[test]
fn len_and_len_bytes_match_manual() {
    assert_eq!(len(&[s("foobar")]).unwrap(), "6");
    assert_eq!(len(&[a(&["one", "two", "three", "four"])]).unwrap(), "4");
    assert_eq!(len_bytes(&[s("foobar")]).unwrap(), "6");
}

#[test]
fn repeat_matches_manual() {
    assert_eq!(repeat(&[s("abc, "), s("3")]).unwrap(), "abc, abc, abc, ");
}

#[test]
fn replace_and_replacen_match_manual() {
    let input = s("one two one two");
    assert_eq!(
        replace(&[input.clone(), s("one"), s("1")]).unwrap(),
        "1 two 1 two"
    );
    assert_eq!(
        replacen(&[input.clone(), s("one"), s("three"), s("1")]).unwrap(),
        "three two one two"
    );
    assert_eq!(
        replacen(&[input, s("two"), s("three"), s("2")]).unwrap(),
        "one three one three"
    );
}

#[test]
fn regex_replace_matches_manual() {
    assert_eq!(regex_replace(&[s("bob"), s("^b"), s("B")]).unwrap(), "Bob");
    assert_eq!(regex_replace(&[s("bob"), s("b$"), s("B")]).unwrap(), "boB");
}

#[test]
fn reverse_str_matches_manual() {
    assert_eq!(reverse_str(&[s("foobar")]).unwrap(), "raboof");
}

#[test]
fn case_conversion_matches_manual() {
    assert_eq!(to_lowercase(&[s("FOOBAR")]).unwrap(), "foobar");
    assert_eq!(to_uppercase(&[s("foobar")]).unwrap(), "FOOBAR");
}

#[test]
fn escape_matches_manual() {
    let line = " Mary   had\\ta little  \\n\\t lamb\\t";
    assert_eq!(
        escape(&[s(line)]).unwrap(),
        " Mary   had\\\\ta little  \\\\n\\\\t lamb\\\\t"
    );
}

#[test]
fn unescape_round_trips_escape_sequences() {
    assert_eq!(unescape(&[s("a\\tb\\nc")]).unwrap(), "a\tb\nc");
}

#[test]
fn or_matches_manual() {
    assert_eq!(or(&[s(""), s("Fallback")]).unwrap(), "Fallback");
    assert_eq!(or(&[s("42"), s("Not displayed")]).unwrap(), "42");
}

#[test]
fn lines_matches_manual() {
    assert_eq!(
        lines(&[s("firstline\nsecondline")]).unwrap(),
        vec!["firstline", "secondline"]
    );
}

#[test]
fn split_matches_manual() {
    assert_eq!(
        split(&[s("onetwoone"), s("two")]).unwrap(),
        vec!["one", "one"]
    );
    assert_eq!(
        split(&[s("person, age, some data"), s(", ")]).unwrap(),
        vec!["person", "age", "some data"]
    );
    assert_eq!(
        split(&[s("person age data")]).unwrap(),
        vec!["person", "age", "data"]
    );
}

#[test]
fn split_at_matches_manual() {
    assert_eq!(
        split_at(&[s("onetwoone"), s("3")]).unwrap(),
        vec!["one", "twoone"]
    );
    assert_eq!(
        split_at(&[s("FOOBAR"), s("3")]).unwrap(),
        vec!["FOO", "BAR"]
    );
}

#[test]
fn bytes_matches_manual() {
    assert_eq!(
        bytes(&[s("onetwo")]).unwrap(),
        vec!["111", "110", "101", "116", "119", "111"]
    );
    assert_eq!(bytes(&[s("abc")]).unwrap(), vec!["97", "98", "99"]);
}

#[test]
fn chars_matches_manual() {
    assert_eq!(
        chars_method(&[s("onetwo")]).unwrap(),
        vec!["o", "n", "e", "t", "w", "o"]
    );
}

#[test]
fn reverse_arr_matches_manual() {
    assert_eq!(
        reverse_arr(&[a(&["1", "2", "3"])]).unwrap(),
        vec!["3", "2", "1"]
    );
}

#[test]
fn subst_matches_manual() {
    assert_eq!(
        subst(&[a(&[]), a(&["1", "2", "3"])]).unwrap(),
        vec!["1", "2", "3"]
    );
    assert_eq!(subst(&[a(&["x"]), a(&["1", "2", "3"])]).unwrap(), vec!["x"]);
}

#[test]
fn dispatch_returns_none_for_unknown_names() {
    assert!(call_string_method("no_such_method", &[]).is_none());
    assert!(call_array_method("no_such_method", &[]).is_none());
}

#[test]
fn case_is_changed_beyond_ascii() {
    assert_eq!(to_lowercase(&[s("\u{c4}B\u{3a3}")]).unwrap(), "\u{e4}b\u{3c2}");
    assert_eq!(to_uppercase(&[s("stra\u{df}e")]).unwrap(), "STRASSE");
}

#[test]
fn a_wrong_pattern_is_reported_with_its_text() {
    let error = regex_replace(&[s("bob"), s("("), s("B")]).unwrap_err();
    assert!(error.contains("("));
    assert_eq!(regex_replace(&[s("a1b22"), s("[0-9]+"), s("#")]).unwrap(), "a#b#");
}

#[test]
fn missing_arguments_are_reported() {
    assert!(basename(&[]).is_err());
    assert!(len(&[]).is_err());
    assert!(subst(&[a(&["x"])]).is_err());
    assert!(repeat(&[s("x"), s("many")]).is_err());
}

#[test]
fn unescape_undoes_escape() {
    for text in ["plain", "tab\there", "quote\"s", "back\\slash", "new\nline"] {
        let escaped = escape(&[s(text)]).unwrap();
        assert_eq!(unescape(&[s(&escaped)]).unwrap(), text);
    }
}

#[test]
fn reversing_twice_gives_the_text_back() {
    let once = reverse_str(&[s("h\u{e9}llo")]).unwrap();
    assert_eq!(once, "oll\u{e9}h");
    assert_eq!(reverse_str(&[s(&once)]).unwrap(), "h\u{e9}llo");
}
