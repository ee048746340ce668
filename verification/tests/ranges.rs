use ion_win::ranges::{apply_array_slice, apply_string_slice, expand_brace_range, expand_braces};

fn arr(items: &[&str]) -> Vec<String> {
    items.iter().map(|s| s.to_string()).collect()
}

#[test]
fn exclusive_and_inclusive_array_slice_match_manual() {
    let array = arr(&["1", "2", "3", "4", "5", "6", "7", "8", "9", "10"]);
    assert_eq!(
        apply_array_slice(&array, "0..5").unwrap(),
        arr(&["1", "2", "3", "4", "5"])
    );
    assert_eq!(
        apply_array_slice(&array, "..5").unwrap(),
        arr(&["1", "2", "3", "4", "5"])
    );
    assert_eq!(
        apply_array_slice(&array, "0...5").unwrap(),
        arr(&["1", "2", "3", "4", "5", "6"])
    );
    assert_eq!(
        apply_array_slice(&array, "0..=5").unwrap(),
        arr(&["1", "2", "3", "4", "5", "6"])
    );
}

#[test]
fn string_slice_matches_manual() {
    assert_eq!(apply_string_slice("hello world", "..5").unwrap(), "hello");
    assert_eq!(apply_string_slice("hello world", "6..").unwrap(), "world");
    assert_eq!(
        apply_string_slice("Hello, World", "2..9").unwrap(),
        "llo, Wo"
    );
}

#[test]
fn ranges_single_index_matches_manual() {
    let array = arr(&["1", "2", "3", "4", "5"]);
    assert_eq!(apply_array_slice(&array, "0").unwrap(), arr(&["1"]));
    assert_eq!(
        apply_array_slice(&array, "2..=4").unwrap(),
        arr(&["3", "4", "5"])
    );
}

#[test]
fn stepped_and_reverse_array_slice_match_manual() {
    let array: Vec<String> = (0..=30).map(|n: i64| n.to_string()).collect();
    assert_eq!(
        apply_array_slice(&array, "0,3..").unwrap(),
        arr(&["0", "3", "6", "9", "12", "15", "18", "21", "24", "27", "30"])
    );
    assert_eq!(
        apply_array_slice(&array, "30,-3..").unwrap(),
        arr(&["30", "27", "24", "21", "18", "15", "12", "9", "6", "3", "0"])
    );
}

#[test]
fn brace_ranges_match_manual_ascending_descending() {
    assert_eq!(
        expand_brace_range("1..10").unwrap(),
        vec!["1", "2", "3", "4", "5", "6", "7", "8", "9"]
    );
    assert_eq!(
        expand_brace_range("10..1").unwrap(),
        vec!["10", "9", "8", "7", "6", "5", "4", "3", "2"]
    );
    assert_eq!(
        expand_brace_range("1...10").unwrap(),
        vec!["1", "2", "3", "4", "5", "6", "7", "8", "9", "10"]
    );
    assert_eq!(
        expand_brace_range("10...1").unwrap(),
        vec!["10", "9", "8", "7", "6", "5", "4", "3", "2", "1"]
    );
}

#[test]
fn brace_ranges_support_negative_bounds() {
    let expected: Vec<String> = (-10..=10).map(|n: i64| n.to_string()).collect();
    assert_eq!(expand_brace_range("-10...10").unwrap(), expected);
}

#[test]
fn brace_ranges_support_stepping() {
    assert_eq!(
        expand_brace_range("0..3...12").unwrap(),
        vec!["0", "3", "6", "9", "12"]
    );
    assert_eq!(
        expand_brace_range("0..3..12").unwrap(),
        vec!["0", "3", "6", "9"]
    );
    assert_eq!(
        expand_brace_range("10..-2...-10").unwrap(),
        vec!["10", "8", "6", "4", "2", "0", "-2", "-4", "-6", "-8", "-10"]
    );
    assert_eq!(
        expand_brace_range("10..-2..-10").unwrap(),
        vec!["10", "8", "6", "4", "2", "0", "-2", "-4", "-6", "-8"]
    );
}

#[test]
fn brace_alpha_ranges_match_manual() {
    assert_eq!(expand_brace_range("a..d").unwrap(), vec!["a", "b", "c"]);
    assert_eq!(expand_brace_range("d..a").unwrap(), vec!["d", "c", "b"]);
    assert_eq!(
        expand_brace_range("a...d").unwrap(),
        vec!["a", "b", "c", "d"]
    );
    assert_eq!(
        expand_brace_range("d...a").unwrap(),
        vec!["d", "c", "b", "a"]
    );
}

#[test]
fn single_brace_permutation_matches_manual() {
    assert_eq!(
        expand_braces("filename.{ext1,ext2}").unwrap(),
        arr(&["filename.ext1", "filename.ext2"])
    );
}

#[test]
fn multiple_brace_groups_cross_product() {
    assert_eq!(
        expand_braces("job_{01,02}.{ext1,ext2}").unwrap(),
        arr(&["job_01.ext1", "job_01.ext2", "job_02.ext1", "job_02.ext2"])
    );
}

#[test]
fn nested_brace_groups_expand() {
    assert_eq!(
        expand_braces("job_{01_{out,err},02_{out,err}}.txt").unwrap(),
        arr(&[
            "job_01_out.txt",
            "job_01_err.txt",
            "job_02_out.txt",
            "job_02_err.txt",
        ])
    );
}

#[test]
fn deep_nesting_matches_upstream_ion_test_suite() {
    assert_eq!(
        expand_braces("1{A{1,2},B{1,2}}").unwrap(),
        arr(&["1A1", "1A2", "1B1", "1B2"])
    );
    assert_eq!(
        expand_braces("It{{em,alic}iz,erat}e{d,}").unwrap(),
        arr(&[
            "Itemized",
            "Itemize",
            "Italicized",
            "Italicize",
            "Iterated",
            "Iterate",
        ])
    );
}

#[test]
fn range_and_literal_elements_mix_in_one_group() {
    assert_eq!(
        expand_braces("v{1..3,final}").unwrap(),
        arr(&["v1", "v2", "vfinal"])
    );
}

#[test]
fn bare_range_still_works_via_expand_braces() {
    assert_eq!(
        expand_braces("{1..10}").unwrap(),
        expand_brace_range("1..10").unwrap()
    );
}

#[test]
fn dollar_and_at_brace_are_not_permutation_groups() {
    assert_eq!(expand_braces("${name}"), None);
    assert_eq!(expand_braces("@{name}"), None);
    assert_eq!(expand_braces("${name}suffix"), None);
}

#[test]
fn dollar_brace_coexists_with_permutation_group() {
    assert_eq!(
        expand_braces("${name}.{a,b}").unwrap(),
        arr(&["${name}.a", "${name}.b"])
    );
}

#[test]
fn no_brace_or_unmatched_brace_returns_none() {
    assert_eq!(expand_braces("hello"), None);
    assert_eq!(expand_braces("{unterminated"), None);
    assert_eq!(expand_braces("stray}"), None);
}

#[test]
fn empty_braces_stay_literal() {
    assert_eq!(expand_braces("{}"), None);
    assert_eq!(expand_braces("prefix{}suffix"), None);
}

#[test]
fn words_one_after_the_other_multiply() {
    let front = expand_braces("a{1..3}-").unwrap();
    let back = expand_braces("x{p,{q,r}}").unwrap();
    let both = expand_braces("a{1..3}-x{p,{q,r}}").unwrap();
    assert_eq!(both.len(), front.len() * back.len());
    for (i, first) in front.iter().enumerate() {
        for (j, second) in back.iter().enumerate() {
            assert_eq!(both[i * back.len() + j], format!("{first}{second}"));
        }
    }
    assert_eq!(expand_braces("{a,b}${x}{1,2}").unwrap(), arr(&["a${x}1", "a${x}2", "b${x}1", "b${x}2"]));
    assert_eq!(expand_braces("{a,b}$").unwrap(), arr(&["a$", "b$"]));
    assert_eq!(expand_braces("{a,b}${1,2}").unwrap(), arr(&["a${1,2}", "b${1,2}"]));
}

#[test]
fn a_range_the_other_way_round_is_the_reverse() {
    for (a, b) in [("3", "-2"), ("0", "0"), ("-7", "12"), ("a", "f"), ("Z", "b")] {
        for dots in ["...", "..="] {
            let there = expand_brace_range(&format!("{a}{dots}{b}")).unwrap();
            let mut back = expand_brace_range(&format!("{b}{dots}{a}")).unwrap();
            back.reverse();
            assert_eq!(there, back, "{a} {b}");
        }
    }
    assert_eq!(expand_brace_range("3...-2").unwrap(), arr(&["3", "2", "1", "0", "-1", "-2"]));
}
