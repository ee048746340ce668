use ion_win::arith::{eval, Num};
use ion_win::dialog::{Answer, FloatCall, FloatOp, Request, Talk};
use ion_win::names::Scopes;

/// Runs something until every request that it makes is answered.
#[allow(dead_code)]
fn run<R>(mut reply: impl FnMut(&Request) -> Answer, mut work: impl FnMut(&mut Talk) -> R) -> (R, Vec<String>) {
    let mut answers: Vec<Answer> = Vec::new();
    loop {
        let mut talk = Talk::open(answers.clone());
        let result = work(&mut talk);
        match talk.pending {
            None => return (result, talk.notes.into_iter().map(|note| note.text).collect()),
            Some(request) => answers.push(reply(&request)),
        }
    }
}

/// Does floating-point work.
#[allow(dead_code)]
fn float(call: &FloatCall) -> Answer {
    let of = |x: f64| Answer::Number(x.to_bits());
    match call {
        FloatCall::OfInt(i) => of(*i as f64),
        FloatCall::Parse(s) => match s.parse::<f64>() {
            Ok(x) => of(x),
            Err(_) => Answer::Missing,
        },
        FloatCall::Negate(a) => of(-f64::from_bits(*a)),
        FloatCall::Binary(op, a, b) => {
            let (a, b) = (f64::from_bits(*a), f64::from_bits(*b));
            of(match op {
                FloatOp::Add => a + b,
                FloatOp::Subtract => a - b,
                FloatOp::Multiply => a * b,
                FloatOp::Divide => a / b,
                FloatOp::Remainder => a % b,
                FloatOp::Power => a.powf(b),
                FloatOp::FloorDivide => (a / b).floor(),
            })
        },
        FloatCall::Show(a) => Answer::Text(format!("{:?}", f64::from_bits(*a))),
    }
}

fn calculate(expr: &str, vars: &[(&str, &str)]) -> Result<Num, String> {
    let mut scopes: Scopes<String> = Scopes::new();
    for (name, value) in vars {
        scopes.set(name.to_string(), value.to_string());
    }
    run(
        |request| match request {
            Request::Float(call) => float(call),
            _ => Answer::Missing,
        },
        |talk| eval(expr, &scopes, talk),
    )
    .0
}


#[test]
fn basic_add() {
    assert_eq!(
        calculate("a + b", &[("a", "2"), ("b", "3")])
        .unwrap(),
        Num::Int(5)
    );
}

#[test]
fn power_binds_tighter_than_multiply() {
    assert_eq!(calculate("2 * 3 ** 2", &[]).unwrap(), Num::Float(18.0f64.to_bits()));
}

#[test]
fn divide_and_power_are_always_float() {
    assert_eq!(calculate("4 / 2", &[]).unwrap(), Num::Float(2.0f64.to_bits()));
    assert_eq!(calculate("2 ** 3", &[]).unwrap(), Num::Float(8.0f64.to_bits()));
}

#[test]
fn parenthesized_expression_matches_manual_example() {
    assert_eq!(
        calculate("4 * (pi * (r ** 2))", &[("pi", "3.0"), ("r", "2")])
        .unwrap(),
        Num::Float(48.0f64.to_bits())
    );
}

#[test]
fn postfix_square_and_cube() {
    assert_eq!(calculate("3\u{00B2}", &[]).unwrap(), Num::Float(9.0f64.to_bits()));
    assert_eq!(calculate("2\u{00B3}", &[]).unwrap(), Num::Float(8.0f64.to_bits()));
}

#[test]
fn unary_minus() {
    assert_eq!(calculate("5 - -3", &[]).unwrap(), Num::Int(8));
}

#[test]
fn undefined_variable_errors() {
    assert!(calculate("missing + 1", &[]).is_err());
}

#[test]
fn bitwise_not_complements_all_bits() {
    assert_eq!(calculate("~0", &[]).unwrap(), Num::Int(-1));
    assert_eq!(calculate("~5", &[]).unwrap(), Num::Int(-6));
    assert_eq!(calculate("~-1", &[]).unwrap(), Num::Int(0));
}

#[test]
fn bitwise_not_binds_at_the_unary_tier() {
    assert_eq!(calculate("~2 ** 2", &[]).unwrap(), Num::Float(9.0f64.to_bits()));
    assert_eq!(calculate("~(1 + 1)", &[]).unwrap(), Num::Int(-3));
}

#[test]
fn bitwise_not_rejects_float_operand() {
    let err = calculate("~3.5", &[]).unwrap_err();
    assert!(
        err.contains("integer"),
        "error should name the integer requirement: {err}"
    );
}

#[test]
fn integers_stay_integers() {
    assert_eq!(calculate("7 % 3", &[]).unwrap(), Num::Int(1));
    assert_eq!(calculate("6 & 3", &[]).unwrap(), Num::Int(2));
    assert_eq!(calculate("6 | 3", &[]).unwrap(), Num::Int(7));
    assert_eq!(calculate("6 ^ 3", &[]).unwrap(), Num::Int(5));
    assert_eq!(calculate("1 << 4", &[]).unwrap(), Num::Int(16));
    assert_eq!(calculate("-16 >> 2", &[]).unwrap(), Num::Int(-4));
}

#[test]
fn wrong_expressions_are_refused() {
    assert!(calculate("", &[]).is_err());
    assert!(calculate("(1 + 2", &[]).is_err());
    assert!(calculate("1 2", &[]).is_err());
    assert!(calculate("1 +", &[]).is_err());
}
