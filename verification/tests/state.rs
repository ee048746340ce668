use ion_win::arith::{eval, Num};
use ion_win::dialog::{Answer, FloatCall, FloatOp, Request, Talk};
use ion_win::execution::{
    CancellationToken, ExecutionContext, ExecutionLimits, ExecutionMode, ExecutionSpec, ExecutionTarget, IoMode,
    TerminalMode,
};
use ion_win::functions::{FunctionDef, ParamSpec};
use ion_win::interp::Interpreter;
use ion_win::names::{Names, Scopes};
use ion_win::procexpand::capture;
use ion_win::table::{cell, Table};
use ion_win::token::{tokenize, Quoting};
use ion_win::types::{parse_truth, parse_type_name, TypeTag};

/// Runs something until every request that it makes is answered.
#[allow(dead_code)]
fn run<R>(mut reply: impl FnMut(&Request) -> Answer, mut work: impl FnMut(&mut Talk) -> R) -> (R, Vec<String>) {
    let mut answers: Vec<Answer> = Vec::new();
    loop {
        let mut talk = Talk::open(answers.clone());
        let result = work(&mut talk);
        match talk.pending {
            None => return (result, talk.notes.into_iter().map(|note| note.text).collect()),
            Some(request) => answers.push(reply(&request)),
        }
    }
}

/// Does floating-point work.
#[allow(dead_code)]
fn float(call: &FloatCall) -> Answer {
    let of = |x: f64| Answer::Number(x.to_bits());
    match call {
        FloatCall::OfInt(i) => of(*i as f64),
        FloatCall::Parse(s) => match s.parse::<f64>() {
            Ok(x) => of(x),
            Err(_) => Answer::Missing,
        },
        FloatCall::Negate(a) => of(-f64::from_bits(*a)),
        FloatCall::Binary(op, a, b) => {
            let (a, b) = (f64::from_bits(*a), f64::from_bits(*b));
            of(match op {
                FloatOp::Add => a + b,
                FloatOp::Subtract => a - b,
                FloatOp::Multiply => a * b,
                FloatOp::Divide => a / b,
                FloatOp::Remainder => a % b,
                FloatOp::Power => a.powf(b),
                FloatOp::FloorDivide => (a / b).floor(),
            })
        },
        FloatCall::Show(a) => Answer::Text(format!("{:?}", f64::from_bits(*a))),
    }
}


fn quiet<R>(work: impl FnMut(&mut Talk) -> R) -> R {
    run(
        |request| match request {
            Request::Float(call) => float(call),
            Request::Program(words) if words[0] == "list" => Answer::Text("one two\r\n\n".to_string()),
            Request::Program(words) if words[0] == "broken" => Answer::Failure("denied".to_string()),
            _ => Answer::Missing,
        },
        work,
    )
    .0
}

#[test]
fn a_launch_intent_is_built_up() {
    let spec = ExecutionSpec::new(
        ExecutionTarget::Pipeline { display: "a | b".to_string() },
        "/work".to_string(),
        ExecutionMode::Foreground,
    );
    assert_eq!((spec.stdin(), spec.terminal(), spec.timeout()), (IoMode::Inherit, TerminalMode::Inherit, None));
    let limits = ExecutionLimits { memory_bytes: Some(9), process_count: Some(2) };
    let spec = spec
        .with_environment_override("A".to_string(), "1".to_string())
        .with_environment_override("A".to_string(), "2".to_string())
        .with_io(IoMode::Capture, IoMode::Redirected, IoMode::Inherit)
        .with_terminal(TerminalMode::PseudoConsole)
        .with_limits(limits)
        .with_timeout(30);
    assert_eq!(spec.environment_overrides().get("A"), Some(&"2".to_string()));
    assert_eq!((spec.stdin(), spec.stdout(), spec.stderr()), (IoMode::Capture, IoMode::Redirected, IoMode::Inherit));
    assert_eq!(spec.terminal(), TerminalMode::PseudoConsole);
    assert_eq!(spec.limits().memory_bytes, Some(9));
    assert_eq!(spec.timeout(), Some(30));
    assert_eq!((spec.cwd(), spec.mode()), ("/work", ExecutionMode::Foreground));
}

#[test]
fn a_cancellation_is_remembered() {
    let mut token = CancellationToken::fresh();
    assert!(!token.is_cancelled());
    token.cancel();
    assert!(token.is_cancelled());
    let context = ExecutionContext::new("/work".to_string(), Names::new()).with_correlation_id("c".to_string());
    assert_eq!(context.correlation_id(), Some("c"));
    assert!(!context.cancellation().is_cancelled());
}

#[test]
fn functions_are_kept_by_name() {
    let mut interp = Interpreter::new();
    let def = |doc: Option<&str>| FunctionDef {
        params: vec![ParamSpec { name: "x".to_string(), array: false, ty: Some(TypeTag::Int) }],
        body: vec!["echo $x".to_string()],
        doc: doc.map(str::to_string),
    };
    interp.define_function("second".to_string(), def(None));
    interp.define_function("first".to_string(), def(Some("old")));
    interp.define_function("first".to_string(), def(Some("new")));
    assert_eq!(
        interp.list_functions(),
        [("first".to_string(), Some("new".to_string())), ("second".to_string(), None)]
    );
    assert_eq!(interp.get_function("first").unwrap().body, ["echo $x"]);
    assert!(interp.get_function("third").is_none());
}

#[test]
fn tokens_become_values() {
    let mut interp = Interpreter::new();
    interp.set_array("list".to_string(), vec!["a".to_string(), "b".to_string()]);
    let token = Interpreter::tokenize("@list").remove(0);
    assert_eq!(quiet(|t| interp.scalar_from_token(&token, t)), "a b");
    assert_eq!(quiet(|t| interp.array_from_token(&token, t)), ["a", "b"]);
    let literal = Interpreter::tokenize("[c d]").remove(0);
    assert_eq!(quiet(|t| interp.array_from_token(&literal, t)), ["c", "d"]);
    interp.push_scope();
    interp.define_local_array("list".to_string(), vec!["inner".to_string()]);
    assert_eq!(interp.get_array("list"), Some(&vec!["inner".to_string()]));
    interp.pop_scope();
    assert_eq!(interp.get_array("list").unwrap().len(), 2);
}

#[test]
fn numerals_and_precedence() {
    let vars: Scopes<String> = Scopes::new();
    let value = |s: &str| quiet(|t| eval(s, &vars, t));
    assert_eq!(value("9223372036854775807"), Ok(Num::Int(i64::MAX)));
    assert_eq!(value("2+3*4"), Ok(Num::Int(14)));
    assert_eq!(value("7+9223372036854775807*2"), Ok(Num::Int(5)));
    assert_eq!(value("(2+3)*4"), Ok(Num::Int(20)));
    assert!(value("9223372036854775808").is_err());
}

#[test]
fn rows_are_kept_or_dropped_whole() {
    let row = |name: &str, size: &str| {
        vec![("name".to_string(), name.to_string()), ("size".to_string(), size.to_string())]
    };
    let all = Table { rows: vec![row("a", "5"), row("b", "70"), row("c", "none")] };
    let kept = quiet(|t| all.clone().filter("size", "-gt", "6", t));
    assert_eq!(kept.rows, [row("b", "70")]);
    let none = quiet(|t| all.clone().filter("missing", "==", "x", t));
    assert!(none.rows.is_empty());
    assert_eq!(cell(&all.rows[0], "name"), Some(&"a".to_string()));
    assert_eq!(cell(&all.rows[0], "age"), None);
}

#[test]
fn quotes_hold_words_together() {
    let tokens = tokenize("echo 'a b' \"c d\" e");
    let texts: Vec<&str> = tokens.iter().map(|t| t.text.as_str()).collect();
    assert_eq!(texts, ["echo", "a b", "c d", "e"]);
    assert_eq!(tokens[1].quoting, Quoting::Single);
    assert_eq!(tokens[2].quoting, Quoting::Double);
    assert_eq!(tokens[3].quoting, Quoting::Bare);
}

#[test]
fn programs_are_captured_without_trailing_newlines() {
    let words = |s: &str| vec![s.to_string()];
    assert_eq!(quiet(|t| capture(&words("list"), t)), Ok("one two".to_string()));
    assert_eq!(
        quiet(|t| capture(&words("missing"), t)),
        Err("command not found: missing".to_string())
    );
    assert_eq!(
        quiet(|t| capture(&words("broken"), t)),
        Err("failed to run 'broken': denied".to_string())
    );
    assert_eq!(
        quiet(|t| capture(&[], t)),
        Err("empty command in process expansion".to_string())
    );
}

#[test]
fn types_and_truth_values_are_named() {
    assert_eq!(parse_type_name("int"), Some(TypeTag::Int));
    assert_eq!(parse_type_name("whatever"), None);
    assert_eq!(parse_truth("true"), Some(true));
    assert_eq!(parse_truth("maybe"), None);
}
