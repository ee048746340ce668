use ion_win::builtins::{
    compare_numbers, eval_bool, eval_contains, eval_ends_with, eval_eq, eval_isatty, eval_matches, eval_starts_with,
    eval_test, NumberTest,
};
use ion_win::dialog::{Answer, FloatCall, FloatOp, Request, Stream, Talk};

/// Runs something until every request that it makes is answered.
#[allow(dead_code)]
fn run<R>(mut reply: impl FnMut(&Request) -> Answer, mut work: impl FnMut(&mut Talk) -> R) -> (R, Vec<String>) {
    let mut answers: Vec<Answer> = Vec::new();
    loop {
        let mut talk = Talk::open(answers.clone());
        let result = work(&mut talk);
        match talk.pending {
            None => return (result, talk.notes.into_iter().map(|note| note.text).collect()),
            Some(request) => answers.push(reply(&request)),
        }
    }
}

/// Does floating-point work.
#[allow(dead_code)]
fn float(call: &FloatCall) -> Answer {
    let of = |x: f64| Answer::Number(x.to_bits());
    match call {
        FloatCall::OfInt(i) => of(*i as f64),
        FloatCall::Parse(s) => match s.parse::<f64>() {
            Ok(x) => of(x),
            Err(_) => Answer::Missing,
        },
        FloatCall::Negate(a) => of(-f64::from_bits(*a)),
        FloatCall::Binary(op, a, b) => {
            let (a, b) = (f64::from_bits(*a), f64::from_bits(*b));
            of(match op {
                FloatOp::Add => a + b,
                FloatOp::Subtract => a - b,
                FloatOp::Multiply => a * b,
                FloatOp::Divide => a / b,
                FloatOp::Remainder => a % b,
                FloatOp::Power => a.powf(b),
                FloatOp::FloorDivide => (a / b).floor(),
            })
        },
        FloatCall::Show(a) => Answer::Text(format!("{:?}", f64::from_bits(*a))),
    }
}

fn quietly(work: impl FnMut(&mut Talk) -> bool) -> bool {
    run(
        |request| match request {
            Request::Float(call) => float(call),
            Request::IsTerminal(_) => Answer::Truth(false),
            Request::Exists(path) => Answer::Truth(path == "/there"),
            Request::IsFile(path) => Answer::Truth(path == "/there"),
            _ => Answer::Missing,
        },
        work,
    )
    .0
}

#[test]
fn test_string_equality() {
    assert!(quietly(|t| eval_test(&["foo".into(), "=".into(), "foo".into()], t)));
    assert!(!quietly(|t| eval_test(&["foo".into(), "=".into(), "bar".into()], t)));
}

#[test]
fn test_double_equals_matches_manual_scopes_example() {
    assert!(quietly(|t| eval_test(&["1".into(), "==".into(), "1".into()], t)));
    assert!(!quietly(|t| eval_test(&["1".into(), "==".into(), "2".into()], t)));
}

#[test]
fn test_numeric_comparison() {
    assert!(quietly(|t| eval_test(&["1".into(), "-lt".into(), "6".into()], t)));
    assert!(!quietly(|t| eval_test(&["6".into(), "-lt".into(), "6".into()], t)));
}

#[test]
fn bool_matches_manual() {
    assert!(quietly(|t| eval_bool(&["1".into()], t)));
    assert!(quietly(|t| eval_bool(&["true".into()], t)));
    assert!(!quietly(|t| eval_bool(&["0".into()], t)));
    assert!(!quietly(|t| eval_bool(&["false".into()], t)));
    assert!(!quietly(|t| eval_bool(&["yes".into()], t)));
}

#[test]
fn contains_matches_manual() {
    assert!(quietly(|t| eval_contains(&["hello world".into(), "world".into()], t)));
    assert!(quietly(|t| eval_contains(&["hello world".into(), "xyz".into(), "world".into()], t)));
    assert!(!quietly(|t| eval_contains(&["hello world".into(), "xyz".into()], t)));
}

#[test]
fn starts_with_matches_manual() {
    assert!(quietly(|t| eval_starts_with(&["hello world".into(), "hello".into()], t)));
    assert!(!quietly(|t| eval_starts_with(&["hello world".into(), "world".into()], t)));
}

#[test]
fn ends_with_matches_manual() {
    assert!(quietly(|t| eval_ends_with(&["hello world".into(), "world".into()], t)));
    assert!(!quietly(|t| eval_ends_with(&["hello world".into(), "hello".into()], t)));
}

#[test]
fn eq_matches_manual() {
    assert!(quietly(|t| eval_eq(&["foo".into(), "foo".into()], t)));
    assert!(!quietly(|t| eval_eq(&["foo".into(), "bar".into()], t)));
    assert!(quietly(|t| eval_eq(&["not".into(), "foo".into(), "bar".into()], t)));
    assert!(!quietly(|t| eval_eq(&["not".into(), "foo".into(), "foo".into()], t)));
}

#[test]
fn isatty_with_no_args_always_succeeds() {
    assert!(quietly(|t| eval_isatty(&[], t)));
}

#[test]
fn isatty_rejects_unsupported_fd_and_bad_input() {
    assert!(!quietly(|t| eval_isatty(&["7".into()], t)));
    assert!(!quietly(|t| eval_isatty(&["not_a_number".into()], t)));
}

#[test]
fn matches_regex() {
    assert!(quietly(|t| eval_matches(&["xs".into(), "x".into()], t)));
    assert!(!quietly(|t| eval_matches(&["x".into(), "xs".into()], t)));
    assert!(quietly(|t| eval_matches(&["apple".into(), "[A-Ma-m]\\w+".into()], t)));
}

#[test]
fn files_are_looked_for() {
    assert!(quietly(|t| eval_test(&["-e".into(), "/there".into()], t)));
    assert!(!quietly(|t| eval_test(&["-e".into(), "/elsewhere".into()], t)));
    assert!(!quietly(|t| eval_test(&["-d".into(), "/there".into()], t)));
}

#[test]
fn missing_arguments_give_a_hint() {
    let (r, notes) = run(|_| Answer::Missing, |t| eval_bool(&[], t));
    assert!(!r);
    assert_eq!(notes, ["ion: bool: usage: bool VALUE"]);
    let (r, notes) = run(|_| Answer::Missing, |t| eval_contains(&["x".into()], t));
    assert!(!r);
    assert_eq!(notes, ["ion: contains: usage: contains <PATTERN> tests..."]);
}

#[test]
fn a_wrong_pattern_matches_nothing() {
    let (r, notes) = run(|_| Answer::Missing, |t| eval_matches(&["x".into(), "(".into()], t));
    assert!(!r);
    assert_eq!(notes.len(), 1);
}

#[test]
fn numbers_compare_by_value() {
    assert!(quietly(|t| eval_test(&["10".into(), "-gt".into(), "9.5".into()], t)));
    assert!(quietly(|t| eval_test(&["1.0".into(), "-eq".into(), "1".into()], t)));
}

fn holds(a: &str, op: &str, b: &str) -> bool {
    let words = [a.to_string(), op.to_string(), b.to_string()];
    quietly(|talk| eval_test(&words, talk))
}

#[test]
fn numbers_are_ordered_as_their_values_are() {
    let values = [
        f64::NEG_INFINITY, -1e300, -2.5, -1.0, -f64::MIN_POSITIVE, -5e-324, -0.0, 0.0, 5e-324,
        f64::MIN_POSITIVE, 0.5, 1.0, 1.0000000000000002, 2.5, 1e300, f64::INFINITY, f64::NAN, -f64::NAN,
    ];
    for x in values {
        for y in values {
            let (m, n) = (x.to_bits(), y.to_bits());
            assert_eq!(compare_numbers(NumberTest::Equal, m, n), x == y, "{x} {y}");
            assert_eq!(compare_numbers(NumberTest::NotEqual, m, n), x != y, "{x} {y}");
            assert_eq!(compare_numbers(NumberTest::Less, m, n), x < y, "{x} {y}");
            assert_eq!(compare_numbers(NumberTest::LessOrEqual, m, n), x <= y, "{x} {y}");
            assert_eq!(compare_numbers(NumberTest::Greater, m, n), x > y, "{x} {y}");
            assert_eq!(compare_numbers(NumberTest::GreaterOrEqual, m, n), x >= y, "{x} {y}");
        }
    }
}

#[test]
fn comparisons_of_numbers_have_their_opposites() {
    for (a, b) in [("1", "2"), ("2", "1"), ("2", "2.0"), ("-0", "0"), ("-3.5", "1e3")] {
        let (less, equal, greater) = (holds(a, "-lt", b), holds(a, "-eq", b), holds(a, "-gt", b));
        assert_eq!([less, equal, greater].iter().filter(|x| **x).count(), 1, "{a} {b}");
        assert_eq!(holds(a, "-ne", b), !equal);
        assert_eq!(holds(a, "-le", b), !greater);
        assert_eq!(holds(a, "-ge", b), !less);
    }
    for op in ["-eq", "-ne", "-lt", "-le", "-gt", "-ge"] {
        assert!(!holds("x", op, "1") && !holds("1", op, "x"));
        assert_eq!(holds("nan", op, "1"), op == "-ne");
    }
    assert!(holds("a", "=", "a") && holds("a", "==", "a") && holds("a", "!=", "b"));
}

#[test]
fn diagnostics_of_conditions_go_to_the_standard_error() {
    let mut talk = Talk::open(vec![]);
    assert!(!eval_bool(&[], &mut talk));
    assert_eq!(talk.notes.len(), 1);
    assert_eq!(talk.notes[0].stream, Stream::Error);
    assert_eq!(talk.notes[0].text, "ion: bool: usage: bool VALUE");
}
