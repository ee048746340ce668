//! Arithmetic expansion, `$((expr))`.
//!
//! Operators, from the loosest to the tightest: `|`, `^`, `&`, `<<` and `>>`,
//! `+` and `-`, `*`, `/` and `%`, `**` (which groups to the right), the signs
//! `-`, `+` and `~`, and the powers `²` and `³` behind an operand. A bare name
//! stands for the variable of that name.
//!
//! A value is a 64-bit integer, whose arithmetic wraps around, or a
//! floating-point number. `/`, `**`, `²` and `³` always give a floating-point
//! number; the bitwise operators take integers only. Floating-point results
//! are asked for.

use crate::dialog;
use crate::dialog::{Answer, FloatCall, FloatOp, Request, Talk, TalkView};
use crate::names;
use crate::names::Scopes;
use crate::text;
use crate::text::{
    cat2, cat3, cat5, chars_of, i64_text, is_letter, is_name, is_space, parse_i64, sub_chars, text_of,
};
use vstd::prelude::*;

verus! {

/// A value: an integer, or a floating-point number by its bits.
#[derive(Debug, Clone, Copy, PartialEq, Eq, Structural)]
pub enum Num {
    Int(i64),
    Float(u64),
}

/// The binary operators.
#[derive(Debug, Clone, Copy, PartialEq, Eq, Structural)]
pub enum Op {
    Or,
    Xor,
    And,
    ShiftLeft,
    ShiftRight,
    Add,
    Subtract,
    Multiply,
    Divide,
    Remainder,
}

/// What an evaluation gives: a value and the place after it, or a message; and
/// the exchange with the outside after it.
pub type Step = (Result<(Num, int), Seq<char>>, TalkView);

/// The variables that a name can stand for.
pub type Vars = Seq<Map<Seq<char>, Seq<char>>>;

/// Asks for a floating-point number.
pub open spec fn float_of(t: TalkView, call: dialog::FloatCallView) -> (u64, TalkView) {
    let (a, t2) = dialog::asked(t, dialog::RequestView::Float(call));
    (a.as_number(), t2)
}

/// The value as a floating-point number.
pub open spec fn as_float(n: Num, t: TalkView) -> (u64, TalkView) {
    match n {
        Num::Int(i) => float_of(t, dialog::FloatCallView::OfInt(i)),
        Num::Float(f) => (f, t),
    }
}

/// An operation on two values as floating-point numbers.
pub open spec fn float_binary(op: FloatOp, a: Num, b: Num, t: TalkView) -> (Num, TalkView) {
    let (x, t1) = as_float(a, t);
    let (y, t2) = as_float(b, t1);
    let (z, t3) = float_of(t2, dialog::FloatCallView::Binary(op, x, y));
    (Num::Float(z), t3)
}

/// The text of a value.
pub open spec fn shown(n: Num, t: TalkView) -> (Seq<char>, TalkView) {
    match n {
        Num::Int(i) => (text::int_text(i as int), t),
        Num::Float(f) => {
            let (a, t2) = dialog::asked(
                t,
                dialog::RequestView::Float(dialog::FloatCallView::Show(f)),
            );
            (a.as_text(), t2)
        },
    }
}

/// The symbol of an operator.
pub open spec fn symbol(op: Op) -> Seq<char> {
    match op {
        Op::Or => "|"@,
        Op::Xor => "^"@,
        Op::And => "&"@,
        Op::ShiftLeft => "<<"@,
        Op::ShiftRight => ">>"@,
        Op::Add => "+"@,
        Op::Subtract => "-"@,
        Op::Multiply => "*"@,
        Op::Divide => "/"@,
        Op::Remainder => "%"@,
    }
}

/// The integer that a bitwise operator gives. A shift goes by the shift
/// distance modulo 64.
pub open spec fn bitwise(op: Op, a: i64, b: i64) -> i64 {
    match op {
        Op::Or => a | b,
        Op::Xor => a ^ b,
        Op::And => a & b,
        Op::ShiftLeft => a.wrapping_shl((b as int % 64) as u32),
        _ => a.wrapping_shr((b as int % 64) as u32),
    }
}

/// The remainder of a division that rounds towards zero; it has the sign of
/// the dividend.
pub open spec fn remainder(a: i64, b: i64) -> i64 {
    match a.checked_rem(b) {
        Some(r) => r,
        None => 0,
    }
}

/// What an operator makes of two values.
pub open spec fn applied(op: Op, a: Num, b: Num, t: TalkView) -> (Result<Num, Seq<char>>, TalkView) {
    match op {
        Op::Or | Op::Xor | Op::And | Op::ShiftLeft | Op::ShiftRight => match (a, b) {
            (Num::Int(x), Num::Int(y)) => (Ok(Num::Int(bitwise(op, x, y))), t),
            _ => (Err("operator '"@ + symbol(op) + "' requires integer operands"@), t),
        },
        Op::Add => match (a, b) {
            (Num::Int(x), Num::Int(y)) => (Ok(Num::Int(x.wrapping_add(y))), t),
            _ => {
                let (n, t2) = float_binary(FloatOp::Add, a, b, t);
                (Ok(n), t2)
            },
        },
        Op::Subtract => match (a, b) {
            (Num::Int(x), Num::Int(y)) => (Ok(Num::Int(x.wrapping_sub(y))), t),
            _ => {
                let (n, t2) = float_binary(FloatOp::Subtract, a, b, t);
                (Ok(n), t2)
            },
        },
        Op::Multiply => match (a, b) {
            (Num::Int(x), Num::Int(y)) => (Ok(Num::Int(x.wrapping_mul(y))), t),
            _ => {
                let (n, t2) = float_binary(FloatOp::Multiply, a, b, t);
                (Ok(n), t2)
            },
        },
        Op::Divide => {
            let (n, t2) = float_binary(FloatOp::Divide, a, b, t);
            (Ok(n), t2)
        },
        Op::Remainder => match (a, b) {
            (Num::Int(x), Num::Int(y)) => if y == 0 {
                (Err("modulus by zero"@), t)
            } else {
                (Ok(Num::Int(remainder(x, y))), t)
            },
            _ => {
                let (n, t2) = float_binary(FloatOp::Remainder, a, b, t);
                (Ok(n), t2)
            },
        },
    }
}

/// The place of the first character at or after `i` that is no white space.
pub open spec fn past_spaces(s: Seq<char>, i: int) -> int
    decreases s.len() - i,
{
    if 0 <= i < s.len() && text::is_space_char(s[i]) {
        past_spaces(s, i + 1)
    } else {
        i
    }
}

/// Whether `c` stands at `i`.
pub open spec fn char_at(s: Seq<char>, i: int, c: char) -> bool {
    0 <= i < s.len() && s[i] == c
}

/// The binary operator of one level that stands at `i`, with its length.
pub open spec fn operator_at(s: Seq<char>, i: int, level: int) -> Option<(Op, int)> {
    if level == 0 {
        if char_at(s, i, '|') {
            Some((Op::Or, 1))
        } else {
            None
        }
    } else if level == 1 {
        if char_at(s, i, '^') {
            Some((Op::Xor, 1))
        } else {
            None
        }
    } else if level == 2 {
        if char_at(s, i, '&') {
            Some((Op::And, 1))
        } else {
            None
        }
    } else if level == 3 {
        if char_at(s, i, '<') && char_at(s, i + 1, '<') {
            Some((Op::ShiftLeft, 2))
        } else if char_at(s, i, '>') && char_at(s, i + 1, '>') {
            Some((Op::ShiftRight, 2))
        } else {
            None
        }
    } else if level == 4 {
        if char_at(s, i, '+') {
            Some((Op::Add, 1))
        } else if char_at(s, i, '-') {
            Some((Op::Subtract, 1))
        } else {
            None
        }
    } else {
        if char_at(s, i, '*') {
            Some((Op::Multiply, 1))
        } else if char_at(s, i, '/') {
            Some((Op::Divide, 1))
        } else if char_at(s, i, '%') {
            Some((Op::Remainder, 1))
        } else {
            None
        }
    }
}

/// The value of the longest expression at `i` whose binary operators are of
/// `level` or tighter: operands joined by operators of that level, taken from
/// the left.
pub open spec fn expression(s: Seq<char>, vars: Vars, level: int, i: int, t: TalkView) -> Step
    decreases s.len() - i, 20 - level, 0int,
    when 0 <= i && 0 <= level <= 6
{
    if level >= 6 {
        power(s, vars, i, t)
    } else {
        let (r, t2) = expression(s, vars, level + 1, i, t);
        match r {
            Err(e) => (Err(e), t2),
            Ok((lhs, j)) => if i < j <= s.len() {
                more_operands(s, vars, level, lhs, j, t2)
            } else {
                (Err(Seq::empty()), t2)
            },
        }
    }
}

/// The value after more operators of `level` and their operands, from `i` on.
pub open spec fn more_operands(
    s: Seq<char>,
    vars: Vars,
    level: int,
    lhs: Num,
    i: int,
    t: TalkView,
) -> Step
    decreases s.len() - i, 20 - level, 1int,
    when 0 <= i && 0 <= level < 6
{
    let k = past_spaces(s, i);
    if k < i {
        (Err(Seq::empty()), t)
    } else {
        match operator_at(s, k, level) {
            None => (Ok((lhs, k)), t),
            Some((op, n)) => {
                let (r, t2) = expression(s, vars, level + 1, k + n, t);
                match r {
                    Err(e) => (Err(e), t2),
                    Ok((rhs, j)) => {
                        let (v, t3) = applied(op, lhs, rhs, t2);
                        match v {
                            Err(e) => (Err(e), t3),
                            Ok(value) => if i < j <= s.len() {
                                more_operands(s, vars, level, value, j, t3)
                            } else {
                                (Err(Seq::empty()), t3)
                            },
                        }
                    },
                }
            },
        }
    }
}

/// The value of an operand at `i`, raised to the power behind `**` if there is
/// one.
pub open spec fn power(s: Seq<char>, vars: Vars, i: int, t: TalkView) -> Step
    decreases s.len() - i, 13int, 0int,
    when 0 <= i
{
    let (r, t2) = signed(s, vars, i, t);
    match r {
        Err(e) => (Err(e), t2),
        Ok((base, j)) => {
            let k = past_spaces(s, j);
            if char_at(s, k, '*') && char_at(s, k + 1, '*') {
                if k + 2 > i && i < s.len() {
                    let (r2, t3) = power(s, vars, k + 2, t2);
                    match r2 {
                        Err(e) => (Err(e), t3),
                        Ok((exponent, m)) => {
                            let (n, t4) = float_binary(FloatOp::Power, base, exponent, t3);
                            (Ok((n, m)), t4)
                        },
                    }
                } else {
                    (Err(Seq::empty()), t2)
                }
            } else {
                (Ok((base, k)), t2)
            }
        },
    }
}

/// The value of an operand at `i` with its signs.
pub open spec fn signed(s: Seq<char>, vars: Vars, i: int, t: TalkView) -> Step
    decreases s.len() - i, 12int, 0int,
    when 0 <= i
{
    let k = past_spaces(s, i);
    if !(i <= k <= s.len()) {
        (Err(Seq::empty()), t)
    } else if char_at(s, k, '-') {
        let (r, t2) = signed(s, vars, k + 1, t);
        match r {
            Err(e) => (Err(e), t2),
            Ok((Num::Int(v), j)) => (Ok((Num::Int(0i64.wrapping_sub(v)), j)), t2),
            Ok((Num::Float(f), j)) => {
                let (z, t3) = float_of(t2, dialog::FloatCallView::Negate(f));
                (Ok((Num::Float(z), j)), t3)
            },
        }
    } else if char_at(s, k, '+') {
        signed(s, vars, k + 1, t)
    } else if char_at(s, k, '~') {
        let (r, t2) = signed(s, vars, k + 1, t);
        match r {
            Err(e) => (Err(e), t2),
            Ok((Num::Int(v), j)) => (Ok((Num::Int(!v), j)), t2),
            Ok((Num::Float(f), j)) => (
                Err("bitwise NOT ('~') requires an integer operand"@),
                t2,
            ),
        }
    } else {
        let (r, t2) = primary(s, vars, k, t);
        match r {
            Err(e) => (Err(e), t2),
            Ok((v, j)) => raised(s, v, j, t2),
        }
    }
}

/// The value after the powers `²` and `³` that stand at `i`.
pub open spec fn raised(s: Seq<char>, v: Num, i: int, t: TalkView) -> Step
    decreases s.len() - i,
    when 0 <= i
    via raised_decreases
{
    let k = past_spaces(s, i);
    if char_at(s, k, '²') || char_at(s, k, '³') {
        let (x, t1) = as_float(v, t);
        let (y, t2) = float_of(
            t1,
            dialog::FloatCallView::OfInt(
                if char_at(s, k, '²') {
                    2
                } else {
                    3
                },
            ),
        );
        let (z, t3) = float_of(t2, dialog::FloatCallView::Binary(FloatOp::Power, x, y));
        raised(s, Num::Float(z), k + 1, t3)
    } else {
        (Ok((v, k)), t)
    }
}

#[via_fn]
proof fn raised_decreases(s: Seq<char>, v: Num, i: int, t: TalkView) {
    lemma_past_spaces(s, i);
}

/// White space is skipped forwards and inside the text.
pub proof fn lemma_past_spaces(s: Seq<char>, i: int)
    requires
        0 <= i,
    ensures
        i <= past_spaces(s, i),
        i <= s.len() ==> past_spaces(s, i) <= s.len(),
    decreases s.len() - i,
{
    if i < s.len() && text::is_space_char(s[i]) {
        lemma_past_spaces(s, i + 1);
    }
}

/// The value of a parenthesis, a number or a variable at `i`.
pub open spec fn primary(s: Seq<char>, vars: Vars, i: int, t: TalkView) -> Step
    decreases s.len() - i, 11int, 0int,
    when 0 <= i
{
    if char_at(s, i, '(') {
        let (r, t2) = expression(s, vars, 0, i + 1, t);
        match r {
            Err(e) => (Err(e), t2),
            Ok((v, j)) => {
                let k = past_spaces(s, j);
                if char_at(s, k, ')') {
                    (Ok((v, k + 1)), t2)
                } else {
                    (Err("expected closing ')'"@), t2)
                }
            },
        }
    } else if i < s.len() && (text::is_digit_char(s[i]) || s[i] == '.') {
        number(s, i, t)
    } else if i < s.len() && (text::is_letter_char(s[i]) || s[i] == '_') {
        let j = name_end(s, i);
        let (v, t2) = variable(vars, s.subrange(i, j), t);
        match v {
            Ok(n) => (Ok((n, j)), t2),
            Err(e) => (Err(e), t2),
        }
    } else {
        (Err("expected a number, variable, or '('"@), t)
    }
}

/// The place after the digits, and at most one point unless `point` already
/// stood before, at `i`; with whether there was a point.
pub open spec fn number_end(s: Seq<char>, i: int, point: bool) -> (int, bool)
    decreases s.len() - i,
{
    if 0 <= i < s.len() && text::is_digit_char(s[i]) {
        number_end(s, i + 1, point)
    } else if 0 <= i < s.len() && s[i] == '.' && !point {
        number_end(s, i + 1, true)
    } else {
        (i, point)
    }
}

/// The value of the number at `i`.
pub open spec fn number(s: Seq<char>, i: int, t: TalkView) -> Step {
    let (j, point) = number_end(s, i, false);
    let digits = s.subrange(i, j);
    let refused = "invalid number '"@ + digits + "'"@;
    if point {
        let (a, t2) = dialog::asked(
            t,
            dialog::RequestView::Float(dialog::FloatCallView::Parse(digits)),
        );
        match a {
            dialog::AnswerView::Number(f) => (Ok((Num::Float(f), j)), t2),
            _ => (Err(refused), t2),
        }
    } else {
        match text::i64_of_text(digits) {
            Some(v) => (Ok((Num::Int(v as i64), j)), t),
            None => (Err(refused), t),
        }
    }
}

/// The place after the name characters at `i`.
pub open spec fn name_end(s: Seq<char>, i: int) -> int
    decreases s.len() - i,
{
    if 0 <= i < s.len() && text::is_name_char(s[i]) {
        name_end(s, i + 1)
    } else {
        i
    }
}

/// The number that a variable holds.
pub open spec fn variable(vars: Vars, name: Seq<char>, t: TalkView) -> (
    Result<Num, Seq<char>>,
    TalkView,
) {
    match names::visible(vars, name) {
        None => (Err(name + ": variable does not exist"@), t),
        Some(value) => match text::i64_of_text(value) {
            Some(i) => (Ok(Num::Int(i as i64)), t),
            None => {
                let (a, t2) = dialog::asked(
                    t,
                    dialog::RequestView::Float(dialog::FloatCallView::Parse(value)),
                );
                match a {
                    dialog::AnswerView::Number(f) => (Ok(Num::Float(f)), t2),
                    _ => (
                        Err(
                            "variable '"@ + name + "' does not hold a number (got '"@ + value
                                + "')"@,
                        ),
                        t2,
                    ),
                }
            },
        },
    }
}

/// The value of a whole expression.
pub open spec fn evaluated(s: Seq<char>, vars: Vars, t: TalkView) -> (
    Result<Num, Seq<char>>,
    TalkView,
) {
    let (r, t2) = expression(s, vars, 0, 0, t);
    match r {
        Err(e) => (Err(e), t2),
        Ok((v, j)) => if past_spaces(s, j) < s.len() {
            (Err("unexpected trailing input in expression '"@ + s + "'"@), t2)
        } else {
            (Ok(v), t2)
        },
    }
}

// ---------------------------------------------------------------------------

/// What an executable step gives.
pub open spec fn step_view(r: Result<(Num, usize), String>, t: TalkView) -> Step {
    (
        match r {
            Ok((v, j)) => Ok((v, j as int)),
            Err(e) => Err(e@),
        },
        t,
    )
}

impl Num {
    /// The text of a value.
    pub fn to_display_string(self, talk: &mut Talk) -> (r: String)
        ensures
            (r@, final(talk)@) == shown(self, old(talk)@),
    {
        match self {
            Num::Int(i) => i64_text(i),
            Num::Float(f) => {
                let a = talk.ask(Request::Float(FloatCall::Show(f)));
                a.into_text()
            },
        }
    }

    fn to_float(self, talk: &mut Talk) -> (r: u64)
        ensures
            (r, final(talk)@) == as_float(self, old(talk)@),
    {
        match self {
            Num::Int(i) => {
                let a = talk.ask(Request::Float(FloatCall::OfInt(i)));
                a.number()
            },
            Num::Float(f) => f,
        }
    }
}

fn float_op(op: FloatOp, a: Num, b: Num, talk: &mut Talk) -> (r: Num)
    ensures
        (r, final(talk)@) == float_binary(op, a, b, old(talk)@),
{
    let x = a.to_float(talk);
    let y = b.to_float(talk);
    let z = talk.ask(Request::Float(FloatCall::Binary(op, x, y)));
    Num::Float(z.number())
}

fn symbol_text(op: Op) -> (r: String)
    ensures
        r@ == symbol(op),
{
    match op {
        Op::Or => "|".to_owned(),
        Op::Xor => "^".to_owned(),
        Op::And => "&".to_owned(),
        Op::ShiftLeft => "<<".to_owned(),
        Op::ShiftRight => ">>".to_owned(),
        Op::Add => "+".to_owned(),
        Op::Subtract => "-".to_owned(),
        Op::Multiply => "*".to_owned(),
        Op::Divide => "/".to_owned(),
        Op::Remainder => "%".to_owned(),
    }
}

/// A bitwise operator on two values.
fn int_op(op: Op, a: Num, b: Num) -> (r: Result<Num, String>)
    ensures
        match (a, b) {
            (Num::Int(x), Num::Int(y)) => r == Ok::<Num, String>(Num::Int(bitwise(op, x, y))),
            _ => r matches Err(e) && e@ == "operator '"@ + symbol(op)
                + "' requires integer operands"@,
        },
{
    match (a, b) {
        (Num::Int(x), Num::Int(y)) => {
            let by: u32 = match y.checked_rem_euclid(64) {
                Some(m) => m as u32,
                None => 0,
            };
            let v: i64 = match op {
                Op::Or => x | y,
                Op::Xor => x ^ y,
                Op::And => x & y,
                Op::ShiftLeft => x.wrapping_shl(by),
                _ => x.wrapping_shr(by),
            };
            Ok(Num::Int(v))
        },
        _ => {
            let name = symbol_text(op);
            Err(cat3("operator '", name.as_str(), "' requires integer operands"))
        },
    }
}

fn apply(op: Op, a: Num, b: Num, talk: &mut Talk) -> (r: Result<Num, String>)
    ensures
        (match r {
            Ok(v) => Ok(v),
            Err(e) => Err(e@),
        }, final(talk)@) == applied(op, a, b, old(talk)@),
{
    match op {
        Op::Or | Op::Xor | Op::And | Op::ShiftLeft | Op::ShiftRight => int_op(op, a, b),
        Op::Add => match (a, b) {
            (Num::Int(x), Num::Int(y)) => Ok(Num::Int(x.wrapping_add(y))),
            _ => Ok(float_op(FloatOp::Add, a, b, talk)),
        },
        Op::Subtract => match (a, b) {
            (Num::Int(x), Num::Int(y)) => Ok(Num::Int(x.wrapping_sub(y))),
            _ => Ok(float_op(FloatOp::Subtract, a, b, talk)),
        },
        Op::Multiply => match (a, b) {
            (Num::Int(x), Num::Int(y)) => Ok(Num::Int(x.wrapping_mul(y))),
            _ => Ok(float_op(FloatOp::Multiply, a, b, talk)),
        },
        Op::Divide => Ok(float_op(FloatOp::Divide, a, b, talk)),
        Op::Remainder => match (a, b) {
            (Num::Int(x), Num::Int(y)) => {
                if y == 0 {
                    return Err("modulus by zero".to_owned());
                }
                match x.checked_rem(y) {
                    Some(v) => Ok(Num::Int(v)),
                    None => Ok(Num::Int(0)),
                }
            },
            _ => Ok(float_op(FloatOp::Remainder, a, b, talk)),
        },
    }
}

fn skip_spaces(s: &[char], from: usize) -> (r: usize)
    requires
        from <= s@.len(),
    ensures
        r == past_spaces(s@, from as int),
        from <= r <= s@.len(),
{
    let mut i: usize = from;
    while i < s.len() && is_space(s[i])
        invariant
            from <= i <= s@.len(),
            past_spaces(s@, from as int) == past_spaces(s@, i as int),
        decreases s@.len() - i,
    {
        i = i + 1;
    }
    i
}

fn at(s: &[char], i: usize, c: char) -> (r: bool)
    ensures
        r == char_at(s@, i as int, c),
        r ==> i < s.len(),
{
    i < s.len() && s[i] == c
}

fn operator(s: &[char], i: usize, level: u8) -> (r: Option<(Op, usize)>)
    requires
        i <= s@.len(),
        level < 6,
    ensures
        match r {
            Some((op, n)) => operator_at(s@, i as int, level as int) == Some((op, n as int)) && 1
                <= n && i + n <= s.len(),
            None => operator_at(s@, i as int, level as int) is None,
        },
{
    if i >= s.len() {
        return None;
    }
    let c: char = s[i];
    if level == 0 {
        if c == '|' {
            Some((Op::Or, 1))
        } else {
            None
        }
    } else if level == 1 {
        if c == '^' {
            Some((Op::Xor, 1))
        } else {
            None
        }
    } else if level == 2 {
        if c == '&' {
            Some((Op::And, 1))
        } else {
            None
        }
    } else if level == 3 {
        if c == '<' && at(s, i + 1, '<') {
            Some((Op::ShiftLeft, 2))
        } else if c == '>' && at(s, i + 1, '>') {
            Some((Op::ShiftRight, 2))
        } else {
            None
        }
    } else if level == 4 {
        if c == '+' {
            Some((Op::Add, 1))
        } else if c == '-' {
            Some((Op::Subtract, 1))
        } else {
            None
        }
    } else {
        if c == '*' {
            Some((Op::Multiply, 1))
        } else if c == '/' {
            Some((Op::Divide, 1))
        } else if c == '%' {
            Some((Op::Remainder, 1))
        } else {
            None
        }
    }
}

fn parse_expression(
    s: &[char],
    vars: &Scopes<String>,
    level: u8,
    from: usize,
    talk: &mut Talk,
) -> (r: Result<(Num, usize), String>)
    requires
        from <= s@.len(),
        level <= 6,
    ensures
        step_view(r, final(talk)@) == expression(s@, vars@, level as int, from as int, old(talk)@),
        r matches Ok((_, j)) ==> from < j <= s@.len(),
    decreases s@.len() - from, 20 - level, 0int,
{
    if level >= 6 {
        return parse_power(s, vars, from, talk);
    }
    let (first, j) = match parse_expression(s, vars, level + 1, from, talk) {
        Err(e) => return Err(e),
        Ok(v) => v,
    };
    let ghost whole = more_operands(s@, vars@, level as int, first, j as int, talk@);
    let mut lhs: Num = first;
    let mut i: usize = j;
    loop
        invariant
            from < i <= s@.len(),
            level < 6,
            whole == more_operands(s@, vars@, level as int, lhs, i as int, talk@),
            whole == expression(s@, vars@, level as int, from as int, old(talk)@),
        decreases s@.len() - i,
    {
        let k: usize = skip_spaces(s, i);
        match operator(s, k, level) {
            None => {
                return Ok((lhs, k));
            },
            Some((op, n)) => {
                let (rhs, next) = match parse_expression(s, vars, level + 1, k + n, talk) {
                    Err(e) => return Err(e),
                    Ok(v) => v,
                };
                lhs =
                match apply(op, lhs, rhs, talk) {
                    Err(e) => return Err(e),
                    Ok(v) => v,
                };
                i = next;
            },
        }
    }
}

fn parse_power(s: &[char], vars: &Scopes<String>, from: usize, talk: &mut Talk) -> (r: Result<
    (Num, usize),
    String,
>)
    requires
        from <= s@.len(),
    ensures
        step_view(r, final(talk)@) == power(s@, vars@, from as int, old(talk)@),
        r matches Ok((_, j)) ==> from < j <= s@.len(),
    decreases s@.len() - from, 13int, 0int,
{
    let (base, j) = match parse_unary(s, vars, from, talk) {
        Err(e) => return Err(e),
        Ok(v) => v,
    };
    let k: usize = skip_spaces(s, j);
    if at(s, k, '*') && k + 1 < s.len() && at(s, k + 1, '*') {
        let (exponent, m) = match parse_power(s, vars, k + 2, talk) {
            Err(e) => return Err(e),
            Ok(v) => v,
        };
        let n = float_op(FloatOp::Power, base, exponent, talk);
        Ok((n, m))
    } else {
        Ok((base, k))
    }
}

fn parse_unary(s: &[char], vars: &Scopes<String>, from: usize, talk: &mut Talk) -> (r: Result<
    (Num, usize),
    String,
>)
    requires
        from <= s@.len(),
    ensures
        step_view(r, final(talk)@) == signed(s@, vars@, from as int, old(talk)@),
        r matches Ok((_, j)) ==> from < j <= s@.len(),
    decreases s@.len() - from, 12int, 0int,
{
    let k: usize = skip_spaces(s, from);
    if at(s, k, '-') {
        match parse_unary(s, vars, k + 1, talk) {
            Err(e) => Err(e),
            Ok((Num::Int(v), j)) => Ok((Num::Int(0i64.wrapping_sub(v)), j)),
            Ok((Num::Float(f), j)) => {
                let a = talk.ask(Request::Float(FloatCall::Negate(f)));
                Ok((Num::Float(a.number()), j))
            },
        }
    } else if at(s, k, '+') {
        parse_unary(s, vars, k + 1, talk)
    } else if at(s, k, '~') {
        match parse_unary(s, vars, k + 1, talk) {
            Err(e) => Err(e),
            Ok((Num::Int(v), j)) => Ok((Num::Int(!v), j)),
            Ok((Num::Float(_), _)) => Err(
                "bitwise NOT ('~') requires an integer operand".to_owned(),
            ),
        }
    } else {
        match parse_primary(s, vars, k, talk) {
            Err(e) => Err(e),
            Ok((v, j)) => parse_postfix(s, v, j, talk),
        }
    }
}

/// The powers `²` and `³` behind an operand.
fn parse_postfix(s: &[char], operand: Num, from: usize, talk: &mut Talk) -> (r: Result<
    (Num, usize),
    String,
>)
    requires
        from <= s@.len(),
    ensures
        step_view(r, final(talk)@) == raised(s@, operand, from as int, old(talk)@),
        r matches Ok((_, j)) ==> from <= j <= s@.len(),
{
    let ghost whole = raised(s@, operand, from as int, talk@);
    let mut v: Num = operand;
    let mut i: usize = from;
    loop
        invariant
            from <= i <= s@.len(),
            whole == raised(s@, v, i as int, talk@),
            whole == raised(s@, operand, from as int, old(talk)@),
        decreases s@.len() - i,
    {
        let k: usize = skip_spaces(s, i);
        let square = at(s, k, '²');
        if !square && !at(s, k, '³') {
            return Ok((v, k));
        }
        let x = v.to_float(talk);
        let exponent: i64 = if square {
            2
        } else {
            3
        };
        let y = talk.ask(Request::Float(FloatCall::OfInt(exponent)));
        let z = talk.ask(Request::Float(FloatCall::Binary(FloatOp::Power, x, y.number())));
        v = Num::Float(z.number());
        i = k + 1;
    }
}

fn parse_primary(s: &[char], vars: &Scopes<String>, from: usize, talk: &mut Talk) -> (r: Result<
    (Num, usize),
    String,
>)
    requires
        from <= s@.len(),
    ensures
        step_view(r, final(talk)@) == primary(s@, vars@, from as int, old(talk)@),
        r matches Ok((_, j)) ==> from < j <= s@.len(),
    decreases s@.len() - from, 11int, 0int,
{
    if at(s, from, '(') {
        let (v, j) = match parse_expression(s, vars, 0, from + 1, talk) {
            Err(e) => return Err(e),
            Ok(v) => v,
        };
        let k: usize = skip_spaces(s, j);
        if at(s, k, ')') {
            return Ok((v, k + 1));
        }
        return Err("expected closing ')'".to_owned());
    }
    if from < s.len() {
        let c: char = s[from];
        let u: u32 = c as u32;
        if (48 <= u && u <= 57) || c == '.' {
            return parse_number(s, from, talk);
        }
        if is_letter(c) || c == '_' {
            return parse_identifier(s, vars, from, talk);
        }
    }
    Err("expected a number, variable, or '('".to_owned())
}

fn parse_number(s: &[char], from: usize, talk: &mut Talk) -> (r: Result<(Num, usize), String>)
    requires
        from < s@.len(),
        text::is_digit_char(s@[from as int]) || s@[from as int] == '.',
    ensures
        step_view(r, final(talk)@) == number(s@, from as int, old(talk)@),
        r matches Ok((_, j)) ==> from < j <= s@.len(),
{
    let mut i: usize = from;
    let mut point = false;
    while i < s.len()
        invariant
            from <= i <= s@.len(),
            from < s@.len(),
            text::is_digit_char(s@[from as int]) || s@[from as int] == '.',
            i == from ==> !point,
            number_end(s@, from as int, false) == number_end(s@, i as int, point),
            i == s@.len() ==> number_end(s@, i as int, point) == (i as int, point),
        ensures
            from < i <= s@.len(),
            number_end(s@, from as int, false) == (i as int, point),
        decreases s@.len() - i,
    {
        let u: u32 = s[i] as u32;
        if 48 <= u && u <= 57 {
            i = i + 1;
        } else if s[i] == '.' && !point {
            point = true;
            i = i + 1;
        } else {
            break;
        }
    }
    let part = sub_chars(s, from, i);
    let digits = text_of(&part);
    if point {
        let copy = digits.clone();
        match talk.ask(Request::Float(FloatCall::Parse(copy))) {
            Answer::Number(f) => Ok((Num::Float(f), i)),
            _ => Err(cat3("invalid number '", digits.as_str(), "'")),
        }
    } else {
        match parse_i64(digits.as_str()) {
            Some(v) => Ok((Num::Int(v), i)),
            None => Err(cat3("invalid number '", digits.as_str(), "'")),
        }
    }
}

fn parse_identifier(s: &[char], vars: &Scopes<String>, from: usize, talk: &mut Talk) -> (r: Result<
    (Num, usize),
    String,
>)
    requires
        from < s@.len(),
        text::is_letter_char(s@[from as int]) || s@[from as int] == '_',
        text::is_name_char(s@[from as int]),
        !char_at(s@, from as int, '('),
        !(text::is_digit_char(s@[from as int]) || s@[from as int] == '.'),
    ensures
        step_view(r, final(talk)@) == primary(s@, vars@, from as int, old(talk)@),
        r matches Ok((_, j)) ==> from < j <= s@.len(),
{
    let mut i: usize = from;
    while i < s.len() && is_name(s[i])
        invariant
            from <= i <= s@.len(),
            from < s@.len(),
            text::is_name_char(s@[from as int]),
            name_end(s@, from as int) == name_end(s@, i as int),
        decreases s@.len() - i,
    {
        i = i + 1;
    }
    let part = sub_chars(s, from, i);
    let name = text_of(&part);
    match vars.get(name.as_str()) {
        None => Err(cat2(name.as_str(), ": variable does not exist")),
        Some(value) => {
            if let Some(v) = parse_i64(value.as_str()) {
                return Ok((Num::Int(v), i));
            }
            match talk.ask(Request::Float(FloatCall::Parse(value.clone()))) {
                Answer::Number(f) => Ok((Num::Float(f), i)),
                _ => Err(
                    cat5(
                        "variable '",
                        name.as_str(),
                        "' does not hold a number (got '",
                        value.as_str(),
                        "')",
                    ),
                ),
            }
        },
    }
}

/// Evaluates an arithmetic expression over the visible variables.
pub fn eval(expr: &str, vars: &Scopes<String>, talk: &mut Talk) -> (r: Result<Num, String>)
    ensures
        (match r {
            Ok(v) => Ok(v),
            Err(e) => Err(e@),
        }, final(talk)@) == evaluated(expr@, vars@, old(talk)@),
{
    let s = chars_of(expr);
    let (v, j) = match parse_expression(&s, vars, 0, 0, talk) {
        Err(e) => return Err(e),
        Ok(v) => v,
    };
    if skip_spaces(&s, j) < s.len() {
        return Err(cat3("unexpected trailing input in expression '", expr, "'"));
    }
    Ok(v)
}

proof fn lemma_digits_end(s: Seq<char>, i: int, j: int)
    requires
        0 <= i <= j <= s.len(),
        forall|k: int| i <= k < j ==> text::is_digit_char(#[trigger] s[k]),
        j < s.len() ==> !text::is_digit_char(s[j]) && s[j] != '.',
    ensures
        number_end(s, i, false) == (j, false),
    decreases j - i,
{
    if i < j {
        assert(text::is_digit_char(s[i]));
        lemma_digits_end(s, i + 1, j);
    }
}

/// Whether a numeral ends at `j`: nothing stands there that goes on with it
/// or raises it.
pub open spec fn ends_numeral(s: Seq<char>, j: int) -> bool {
    j < s.len() ==> {
        &&& !text::is_digit_char(s[j])
        &&& !text::is_space_char(s[j])
        &&& s[j] != '.'
        &&& s[j] != '²'
        &&& s[j] != '³'
        &&& !(char_at(s, j, '*') && char_at(s, j + 1, '*'))
    }
}

proof fn lemma_numeral(s: Seq<char>, vars: Vars, n: int, i: int, j: int, t: TalkView)
    requires
        0 <= i < j <= s.len(),
        0 <= n <= i64::MAX,
        s.subrange(i, j) == text::int_text(n),
        ends_numeral(s, j),
    ensures
        expression(s, vars, 6, i, t) == (
            Ok::<(Num, int), Seq<char>>((Num::Int(n as i64), j)),
            t,
        ),
{
    let digits = s.subrange(i, j);
    text::lemma_nat_text_reads_back(n as nat);
    text::law_int_text_reads_back(n);
    assert forall|k: int| i <= k < j implies text::is_digit_char(#[trigger] s[k]) by {
        assert(digits[k - i] == s[k]);
    }
    lemma_digits_end(s, i, j);
    assert(past_spaces(s, i) == i);
    assert(past_spaces(s, j) == j);
    assert(primary(s, vars, i, t) == number(s, i, t));
    assert(raised(s, Num::Int(n as i64), j, t) == (
        Ok::<(Num, int), Seq<char>>((Num::Int(n as i64), j)),
        t,
    ));
    assert(signed(s, vars, i, t) == raised(s, Num::Int(n as i64), j, t));
    assert(power(s, vars, i, t) == signed(s, vars, i, t));
    assert(expression(s, vars, 6, i, t) == power(s, vars, i, t));
}

proof fn lemma_no_operator(
    s: Seq<char>,
    vars: Vars,
    level: int,
    top: int,
    i: int,
    v: Num,
    j: int,
    t: TalkView,
    t2: TalkView,
)
    requires
        0 <= level <= top <= 6,
        0 <= i < j <= s.len(),
        past_spaces(s, j) == j,
        forall|m: int| level <= m < top ==> (#[trigger] operator_at(s, j, m)) is None,
        expression(s, vars, top, i, t) == (Ok::<(Num, int), Seq<char>>((v, j)), t2),
    ensures
        expression(s, vars, level, i, t) == (Ok::<(Num, int), Seq<char>>((v, j)), t2),
    decreases top - level,
{
    if level < top {
        lemma_no_operator(s, vars, level + 1, top, i, v, j, t, t2);
        assert(operator_at(s, j, level) is None);
        assert(more_operands(s, vars, level, v, j, t2) == (
            Ok::<(Num, int), Seq<char>>((v, j)),
            t2,
        ));
    }
}

/// A numeral evaluates to the number that it writes, and nothing is asked for.
pub proof fn law_numeral_is_its_value(vars: Vars, n: int, t: TalkView)
    requires
        0 <= n <= i64::MAX,
    ensures
        evaluated(text::int_text(n), vars, t) == (
            Ok::<Num, Seq<char>>(Num::Int(n as i64)),
            t,
        ),
{
    let s = text::int_text(n);
    let j = s.len() as int;
    text::lemma_nat_text_reads_back(n as nat);
    assert(s.subrange(0, j) =~= s);
    lemma_numeral(s, vars, n, 0, j, t);
    lemma_no_operator(s, vars, 0, 6, 0, Num::Int(n as i64), j, t, t);
}

/// Multiplication binds tighter than addition, whatever the three numbers
/// are.
pub proof fn law_products_bind_tighter(vars: Vars, a: int, b: int, c: int, t: TalkView)
    requires
        0 <= a <= i64::MAX,
        0 <= b <= i64::MAX,
        0 <= c <= i64::MAX,
    ensures
        evaluated(
            text::int_text(a) + seq!['+'] + text::int_text(b) + seq!['*'] + text::int_text(c),
            vars,
            t,
        ) == (
            Ok::<Num, Seq<char>>(
                Num::Int((a as i64).wrapping_add((b as i64).wrapping_mul(c as i64))),
            ),
            t,
        ),
{
    let (ta, tb, tc) = (text::int_text(a), text::int_text(b), text::int_text(c));
    let s = ta + seq!['+'] + tb + seq!['*'] + tc;
    text::lemma_nat_text_reads_back(a as nat);
    text::lemma_nat_text_reads_back(b as nat);
    text::lemma_nat_text_reads_back(c as nat);
    let (x, y, z) = (Num::Int(a as i64), Num::Int(b as i64), Num::Int(c as i64));
    let ja = ta.len() as int;
    let jb = ja + 1 + tb.len();
    let end = s.len() as int;
    assert(s.subrange(0, ja) =~= ta);
    assert(s.subrange(ja + 1, jb) =~= tb);
    assert(s.subrange(jb + 1, end) =~= tc);
    assert(s[ja] == '+' && s[jb] == '*');
    assert(s[jb + 1] == tc[0] && text::is_digit_char(tc[0]));
    lemma_numeral(s, vars, a, 0, ja, t);
    lemma_numeral(s, vars, b, ja + 1, jb, t);
    lemma_numeral(s, vars, c, jb + 1, end, t);
    let product = Num::Int((b as i64).wrapping_mul(c as i64));
    let sum = Num::Int((a as i64).wrapping_add((b as i64).wrapping_mul(c as i64)));
    lemma_no_operator(s, vars, 5, 6, 0, x, ja, t, t);
    assert(past_spaces(s, jb) == jb && past_spaces(s, end) == end);
    assert(more_operands(s, vars, 5, product, end, t) == (
        Ok::<(Num, int), Seq<char>>((product, end)),
        t,
    ));
    assert(more_operands(s, vars, 5, y, jb, t) == more_operands(s, vars, 5, product, end, t));
    assert(expression(s, vars, 5, ja + 1, t) == (
        Ok::<(Num, int), Seq<char>>((product, end)),
        t,
    ));
    assert(more_operands(s, vars, 4, sum, end, t) == (
        Ok::<(Num, int), Seq<char>>((sum, end)),
        t,
    ));
    assert(more_operands(s, vars, 4, x, ja, t) == more_operands(s, vars, 4, sum, end, t));
    assert(expression(s, vars, 4, 0, t) == (Ok::<(Num, int), Seq<char>>((sum, end)), t));
    lemma_no_operator(s, vars, 0, 4, 0, sum, end, t, t);
}

/// How an operator is written.
pub open spec fn written(op: Op) -> Seq<char> {
    match op {
        Op::Or => seq!['|'],
        Op::Xor => seq!['^'],
        Op::And => seq!['&'],
        Op::ShiftLeft => seq!['<', '<'],
        Op::ShiftRight => seq!['>', '>'],
        Op::Add => seq!['+'],
        Op::Subtract => seq!['-'],
        Op::Multiply => seq!['*'],
        Op::Divide => seq!['/'],
        Op::Remainder => seq!['%'],
    }
}

/// How tightly an operator binds, among the binary operators.
pub open spec fn tightness(op: Op) -> int {
    match op {
        Op::Or => 0,
        Op::Xor => 1,
        Op::And => 2,
        Op::ShiftLeft | Op::ShiftRight => 3,
        Op::Add | Op::Subtract => 4,
        Op::Multiply | Op::Divide | Op::Remainder => 5,
    }
}

proof fn lemma_operator_here(s: Seq<char>, k: int, op: Op)
    requires
        0 <= k,
        k + written(op).len() < s.len(),
        s.subrange(k, k + written(op).len()) == written(op),
        text::is_digit_char(s[k + written(op).len()]),
    ensures
        forall|m: int|
            0 <= m < 6 ==> #[trigger] operator_at(s, k, m) == (if m == tightness(op) {
                Some((op, written(op).len() as int))
            } else {
                None::<(Op, int)>
            }),
        ends_numeral(s, k),
        past_spaces(s, k) == k,
{
    let w = written(op);
    assert(s.subrange(k, k + w.len())[0] == s[k]);
    assert(s[k] == w[0]);
    if w.len() == 2 {
        assert(s.subrange(k, k + w.len())[1] == s[k + 1]);
        assert(s[k + 1] == w[1]);
    }
}

proof fn lemma_error_stays(
    s: Seq<char>,
    vars: Vars,
    level: int,
    top: int,
    i: int,
    e: Seq<char>,
    t: TalkView,
    t2: TalkView,
)
    requires
        0 <= level <= top <= 6,
        0 <= i,
        expression(s, vars, top, i, t) == (Err::<(Num, int), Seq<char>>(e), t2),
    ensures
        expression(s, vars, level, i, t) == (Err::<(Num, int), Seq<char>>(e), t2),
    decreases top - level,
{
    if level < top {
        lemma_error_stays(s, vars, level + 1, top, i, e, t, t2);
    }
}

/// What two operators make of three values when the first goes first.
pub open spec fn left_first(op1: Op, op2: Op, a: Num, b: Num, c: Num, t: TalkView) -> (
    Result<Num, Seq<char>>,
    TalkView,
) {
    let (v, t1) = applied(op1, a, b, t);
    match v {
        Err(e) => (Err(e), t1),
        Ok(x) => applied(op2, x, c, t1),
    }
}

/// What two operators make of three values when the second goes first.
pub open spec fn right_first(op1: Op, op2: Op, a: Num, b: Num, c: Num, t: TalkView) -> (
    Result<Num, Seq<char>>,
    TalkView,
) {
    let (v, t1) = applied(op2, b, c, t);
    match v {
        Err(e) => (Err(e), t1),
        Ok(x) => applied(op1, a, x, t1),
    }
}

/// Of two operators the one that binds tighter goes first, and of two that
/// bind alike the left one, whatever operators and numbers they are.
#[verifier::spinoff_prover]
#[verifier::rlimit(40)]
pub proof fn law_tighter_operators_go_first(
    vars: Vars,
    op1: Op,
    op2: Op,
    a: int,
    b: int,
    c: int,
    t: TalkView,
)
    requires
        0 <= a <= i64::MAX,
        0 <= b <= i64::MAX,
        0 <= c <= i64::MAX,
    ensures
        ({
            let (x, y, z) = (Num::Int(a as i64), Num::Int(b as i64), Num::Int(c as i64));
            evaluated(
                text::int_text(a) + written(op1) + text::int_text(b) + written(op2)
                    + text::int_text(c),
                vars,
                t,
            ) == if tightness(op1) < tightness(op2) {
                right_first(op1, op2, x, y, z, t)
            } else {
                left_first(op1, op2, x, y, z, t)
            }
        }),
{
    let (ta, tb, tc) = (text::int_text(a), text::int_text(b), text::int_text(c));
    let (w1, w2) = (written(op1), written(op2));
    let s = ta + w1 + tb + w2 + tc;
    text::lemma_nat_text_reads_back(a as nat);
    text::lemma_nat_text_reads_back(b as nat);
    text::lemma_nat_text_reads_back(c as nat);
    let (x, y, z) = (Num::Int(a as i64), Num::Int(b as i64), Num::Int(c as i64));
    let ja = ta.len() as int;
    let ib = ja + w1.len();
    let jb = ib + tb.len();
    let ic = jb + w2.len();
    let end = s.len() as int;
    assert(s.subrange(0, ja) =~= ta);
    assert(s.subrange(ja, ib) =~= w1);
    assert(s.subrange(ib, jb) =~= tb);
    assert(s.subrange(jb, ic) =~= w2);
    assert(s.subrange(ic, end) =~= tc);
    assert(s[ib] == tb[0] && text::is_digit_char(tb[0]));
    assert(s[ic] == tc[0] && text::is_digit_char(tc[0]));
    lemma_operator_here(s, ja, op1);
    lemma_operator_here(s, jb, op2);
    lemma_numeral(s, vars, a, 0, ja, t);
    let (l1, l2) = (tightness(op1), tightness(op2));
    lemma_no_operator(s, vars, l1 + 1, 6, 0, x, ja, t, t);
    assert(past_spaces(s, end) == end);
    if l1 < l2 {
        lemma_numeral(s, vars, b, ib, jb, t);
        lemma_numeral(s, vars, c, ic, end, t);
        lemma_no_operator(s, vars, l2 + 1, 6, ib, y, jb, t, t);
        lemma_no_operator(s, vars, l2 + 1, 6, ic, z, end, t, t);
        let (v, t1) = applied(op2, y, z, t);
        match v {
            Err(e) => {
                assert(more_operands(s, vars, l2, y, jb, t) == (
                    Err::<(Num, int), Seq<char>>(e),
                    t1,
                ));
                assert(expression(s, vars, l2, ib, t) == (Err::<(Num, int), Seq<char>>(e), t1));
                lemma_error_stays(s, vars, l1 + 1, l2, ib, e, t, t1);
                assert(more_operands(s, vars, l1, x, ja, t) == (
                    Err::<(Num, int), Seq<char>>(e),
                    t1,
                ));
                assert(expression(s, vars, l1, 0, t) == (Err::<(Num, int), Seq<char>>(e), t1));
                lemma_error_stays(s, vars, 0, l1, 0, e, t, t1);
            },
            Ok(p) => {
                assert(more_operands(s, vars, l2, p, end, t1) == (
                    Ok::<(Num, int), Seq<char>>((p, end)),
                    t1,
                ));
                assert(more_operands(s, vars, l2, y, jb, t) == (
                    Ok::<(Num, int), Seq<char>>((p, end)),
                    t1,
                ));
                assert(expression(s, vars, l2, ib, t) == (
                    Ok::<(Num, int), Seq<char>>((p, end)),
                    t1,
                ));
                lemma_no_operator(s, vars, l1 + 1, l2, ib, p, end, t, t1);
                lemma_last_operator(s, vars, l1, x, p, op1, 0, ja, ib, end, t, t, t1);
            },
        }
    } else {
        lemma_numeral(s, vars, b, ib, jb, t);
        lemma_no_operator(s, vars, l1 + 1, 6, ib, y, jb, t, t);
        let (v, t1) = applied(op1, x, y, t);
        match v {
            Err(e) => {
                assert(more_operands(s, vars, l1, x, ja, t) == (
                    Err::<(Num, int), Seq<char>>(e),
                    t1,
                ));
                assert(expression(s, vars, l1, 0, t) == (Err::<(Num, int), Seq<char>>(e), t1));
                lemma_error_stays(s, vars, 0, l1, 0, e, t, t1);
            },
            Ok(p) => {
                lemma_numeral(s, vars, c, ic, end, t1);
                lemma_no_operator(s, vars, l2 + 1, 6, ic, z, end, t1, t1);
                assert(more_operands(s, vars, l1, x, ja, t) == more_operands(
                    s,
                    vars,
                    l1,
                    p,
                    jb,
                    t1,
                ));
                if l2 == l1 {
                    let (q, t2) = applied(op2, p, z, t1);
                    match q {
                        Err(e) => {
                            assert(more_operands(s, vars, l1, p, jb, t1) == (
                                Err::<(Num, int), Seq<char>>(e),
                                t2,
                            ));
                            assert(expression(s, vars, l1, 0, t) == (
                                Err::<(Num, int), Seq<char>>(e),
                                t2,
                            ));
                            lemma_error_stays(s, vars, 0, l1, 0, e, t, t2);
                        },
                        Ok(r) => {
                            assert(more_operands(s, vars, l1, r, end, t2) == (
                                Ok::<(Num, int), Seq<char>>((r, end)),
                                t2,
                            ));
                            assert(more_operands(s, vars, l1, p, jb, t1) == (
                                Ok::<(Num, int), Seq<char>>((r, end)),
                                t2,
                            ));
                            assert(expression(s, vars, l1, 0, t) == (
                                Ok::<(Num, int), Seq<char>>((r, end)),
                                t2,
                            ));
                            lemma_no_operator(s, vars, 0, l1, 0, r, end, t, t2);
                        },
                    }
                } else {
                    assert(more_operands(s, vars, l1, p, jb, t1) == (
                        Ok::<(Num, int), Seq<char>>((p, jb)),
                        t1,
                    ));
                    assert(expression(s, vars, l1, 0, t) == (
                        Ok::<(Num, int), Seq<char>>((p, jb)),
                        t1,
                    ));
                    lemma_no_operator(s, vars, l2 + 1, l1, 0, p, jb, t, t1);
                    lemma_last_operator(s, vars, l2, p, z, op2, 0, jb, ic, end, t, t1, t1);
                }
            },
        }
    }
}

proof fn lemma_last_operator(
    s: Seq<char>,
    vars: Vars,
    level: int,
    x: Num,
    y: Num,
    op: Op,
    i: int,
    j: int,
    k: int,
    end: int,
    t: TalkView,
    t1: TalkView,
    t2: TalkView,
)
    requires
        0 <= level < 6,
        0 <= i < j < k < end,
        end == s.len(),
        past_spaces(s, j) == j,
        operator_at(s, j, level) == Some((op, k - j)),
        i == 0,
        expression(s, vars, level + 1, i, t) == (Ok::<(Num, int), Seq<char>>((x, j)), t1),
        expression(s, vars, level + 1, k, t1) == (Ok::<(Num, int), Seq<char>>((y, end)), t2),
    ensures
        evaluated(s, vars, t) == applied(op, x, y, t2),
{
    let (v, t3) = applied(op, x, y, t2);
    assert(past_spaces(s, end) == end);
    match v {
        Err(e) => {
            assert(more_operands(s, vars, level, x, j, t1) == (
                Err::<(Num, int), Seq<char>>(e),
                t3,
            ));
            assert(expression(s, vars, level, i, t) == (Err::<(Num, int), Seq<char>>(e), t3));
            lemma_error_stays(s, vars, 0, level, i, e, t, t3);
        },
        Ok(r) => {
            assert(more_operands(s, vars, level, r, end, t3) == (
                Ok::<(Num, int), Seq<char>>((r, end)),
                t3,
            ));
            assert(more_operands(s, vars, level, x, j, t1) == (
                Ok::<(Num, int), Seq<char>>((r, end)),
                t3,
            ));
            assert(expression(s, vars, level, i, t) == (
                Ok::<(Num, int), Seq<char>>((r, end)),
                t3,
            ));
            lemma_no_operator(s, vars, 0, level, i, r, end, t, t3);
        },
    }
}

/// An operator between two numbers makes of them what it makes of those
/// values.
pub proof fn law_operator_between_numbers(vars: Vars, op: Op, a: int, b: int, t: TalkView)
    requires
        0 <= a <= i64::MAX,
        0 <= b <= i64::MAX,
    ensures
        evaluated(text::int_text(a) + written(op) + text::int_text(b), vars, t) == applied(
            op,
            Num::Int(a as i64),
            Num::Int(b as i64),
            t,
        ),
{
    let (ta, tb) = (text::int_text(a), text::int_text(b));
    let w = written(op);
    let s = ta + w + tb;
    text::lemma_nat_text_reads_back(a as nat);
    text::lemma_nat_text_reads_back(b as nat);
    let (x, y) = (Num::Int(a as i64), Num::Int(b as i64));
    let j = ta.len() as int;
    let k = j + w.len();
    let end = s.len() as int;
    assert(s.subrange(0, j) =~= ta);
    assert(s.subrange(j, k) =~= w);
    assert(s.subrange(k, end) =~= tb);
    assert(s[k] == tb[0] && text::is_digit_char(tb[0]));
    lemma_operator_here(s, j, op);
    lemma_numeral(s, vars, a, 0, j, t);
    lemma_numeral(s, vars, b, k, end, t);
    let l = tightness(op);
    assert(past_spaces(s, end) == end);
    lemma_no_operator(s, vars, l + 1, 6, 0, x, j, t, t);
    lemma_no_operator(s, vars, l + 1, 6, k, y, end, t, t);
    lemma_last_operator(s, vars, l, x, y, op, 0, j, k, end, t, t, t);
}

/// Of integers, `+`, `-` and `*` give the sum, the difference and the product
/// where it fits, and else what is left of it in 64 bits; `%` gives the
/// remainder with the sign of the dividend, and refuses zero. Nothing is
/// asked.
pub proof fn law_integer_arithmetic(a: i64, b: i64, t: TalkView)
    ensures
        ({
            let (x, y) = (Num::Int(a), Num::Int(b));
            let fits = |n: int| i64::MIN <= n <= i64::MAX;
            let exact = |r: (Result<Num, Seq<char>>, TalkView), n: int|
                r == (Ok::<Num, Seq<char>>(Num::Int(n as i64)), t);
            &&& fits(a + b) ==> exact(applied(Op::Add, x, y, t), a + b)
            &&& a + b > i64::MAX ==> exact(
                applied(Op::Add, x, y, t),
                a + b - 0x1_0000_0000_0000_0000,
            )
            &&& a + b < i64::MIN ==> exact(
                applied(Op::Add, x, y, t),
                a + b + 0x1_0000_0000_0000_0000,
            )
            &&& fits(a - b) ==> exact(applied(Op::Subtract, x, y, t), a - b)
            &&& a - b > i64::MAX ==> exact(
                applied(Op::Subtract, x, y, t),
                a - b - 0x1_0000_0000_0000_0000,
            )
            &&& a - b < i64::MIN ==> exact(
                applied(Op::Subtract, x, y, t),
                a - b + 0x1_0000_0000_0000_0000,
            )
            &&& fits(a * b) ==> exact(applied(Op::Multiply, x, y, t), a * b)
            &&& b == 0 ==> applied(Op::Remainder, x, y, t) == (
                Err::<Num, Seq<char>>("modulus by zero"@),
                t,
            )
            &&& a >= 0 && b > 0 ==> exact(applied(Op::Remainder, x, y, t), a as int % b as int)
            &&& a < 0 && b > 0 ==> exact(
                applied(Op::Remainder, x, y, t),
                -((-(a as int)) % b as int),
            )
            &&& a >= 0 && b < 0 ==> exact(
                applied(Op::Remainder, x, y, t),
                a as int % -(b as int),
            )
            &&& a < 0 && b < 0 ==> exact(
                applied(Op::Remainder, x, y, t),
                -((-(a as int)) % -(b as int)),
            )
        }),
{
    if b != 0 {
        let d = if b > 0 {
            b as int
        } else {
            -(b as int)
        };
        let x = if a >= 0 {
            a as int
        } else {
            -(a as int)
        };
        vstd::arithmetic::div_mod::lemma_mod_bound(x, d);
        vstd::arithmetic::div_mod::lemma_small_mod(0, d as nat);
        vstd::arithmetic::div_mod::lemma_mod_self_0(d);
        if d == 1 {
            vstd::arithmetic::div_mod::lemma_fundamental_div_mod(x, 1);
        }
    }
}

/// Of integers, `|`, `^` and `&` go bit by bit, and `<<` and `>>` shift the
/// first by the second, counted modulo 64; of anything else they fail.
pub proof fn law_bitwise_arithmetic(a: i64, b: i64, f: Num, g: u64, t: TalkView)
    ensures
        applied(Op::Or, Num::Int(a), Num::Int(b), t) == (Ok::<Num, Seq<char>>(Num::Int(a | b)), t),
        applied(Op::Xor, Num::Int(a), Num::Int(b), t) == (Ok::<Num, Seq<char>>(Num::Int(a ^ b)), t),
        applied(Op::And, Num::Int(a), Num::Int(b), t) == (Ok::<Num, Seq<char>>(Num::Int(a & b)), t),
        applied(Op::ShiftLeft, Num::Int(a), Num::Int(b), t) == (
            Ok::<Num, Seq<char>>(Num::Int(a.wrapping_shl((b as int % 64) as u32))),
            t,
        ),
        applied(Op::ShiftRight, Num::Int(a), Num::Int(b), t) == (
            Ok::<Num, Seq<char>>(Num::Int(a.wrapping_shr((b as int % 64) as u32))),
            t,
        ),
        forall|op: Op|
            tightness(op) < 4 ==> (#[trigger] applied(op, Num::Float(g), f, t)).0 is Err && applied(
                op,
                f,
                Num::Float(g),
                t,
            ).0 is Err,
{
}

/// The floating-point operation that an operator stands for.
pub open spec fn float_operation(op: Op) -> Option<FloatOp> {
    match op {
        Op::Add => Some(FloatOp::Add),
        Op::Subtract => Some(FloatOp::Subtract),
        Op::Multiply => Some(FloatOp::Multiply),
        Op::Divide => Some(FloatOp::Divide),
        Op::Remainder => Some(FloatOp::Remainder),
        _ => None,
    }
}

/// Where one of two values is a floating-point number, and in a division
/// always, each operator asks for its own operation on the two as
/// floating-point numbers, an integer being turned into one first, and gives
/// what is answered.
pub proof fn law_float_operators_ask_for_their_own(op: Op, a: Num, b: Num, t: TalkView)
    requires
        float_operation(op) is Some,
        a is Float || b is Float || op == Op::Divide,
        t.pending is None,
        0 <= t.next,
        t.next + 3 <= t.answers.len(),
    ensures
        ({
            let (r, t2) = applied(op, a, b, t);
            let given = |k: int| t.answers[t.next + k].as_number();
            let of = |i: i64| dialog::RequestView::Float(dialog::FloatCallView::OfInt(i));
            let done = |x: u64, y: u64|
                dialog::RequestView::Float(
                    dialog::FloatCallView::Binary(float_operation(op)->0, x, y),
                );
            match (a, b) {
                (Num::Float(x), Num::Float(y)) => r == Ok::<Num, Seq<char>>(Num::Float(given(0)))
                    && t2.made == t.made.push(done(x, y)) && t2.next == t.next + 1,
                (Num::Int(i), Num::Float(y)) => r == Ok::<Num, Seq<char>>(Num::Float(given(1)))
                    && t2.made == t.made.push(of(i)).push(done(given(0), y)) && t2.next == t.next + 2,
                (Num::Float(x), Num::Int(j)) => r == Ok::<Num, Seq<char>>(Num::Float(given(1)))
                    && t2.made == t.made.push(of(j)).push(done(x, given(0))) && t2.next == t.next + 2,
                (Num::Int(i), Num::Int(j)) => r == Ok::<Num, Seq<char>>(Num::Float(given(2)))
                    && t2.made == t.made.push(of(i)).push(of(j)).push(done(given(0), given(1)))
                    && t2.next == t.next + 3,
            }
        }),
{
}

/// `**` asks for the power of its two numbers as floating-point numbers.
pub proof fn law_powers_are_asked_for(vars: Vars, a: int, b: int, t: TalkView)
    requires
        0 <= a <= i64::MAX,
        0 <= b <= i64::MAX,
        t.pending is None,
        0 <= t.next,
        t.next + 3 <= t.answers.len(),
    ensures
        ({
            let (r, t2) = evaluated(
                text::int_text(a) + seq!['*', '*'] + text::int_text(b),
                vars,
                t,
            );
            let given = |k: int| t.answers[t.next + k].as_number();
            &&& r == Ok::<Num, Seq<char>>(Num::Float(given(2)))
            &&& t2.made == t.made.push(
                dialog::RequestView::Float(dialog::FloatCallView::OfInt(a as i64)),
            ).push(dialog::RequestView::Float(dialog::FloatCallView::OfInt(b as i64))).push(
                dialog::RequestView::Float(
                    dialog::FloatCallView::Binary(FloatOp::Power, given(0), given(1)),
                ),
            )
        }),
{
    let (ta, tb) = (text::int_text(a), text::int_text(b));
    let s = ta + seq!['*', '*'] + tb;
    text::lemma_nat_text_reads_back(a as nat);
    text::lemma_nat_text_reads_back(b as nat);
    let j = ta.len() as int;
    let end = s.len() as int;
    assert(s.subrange(0, j) =~= ta);
    assert(s.subrange(j + 2, end) =~= tb);
    assert(s[j] == '*' && s[j + 1] == '*');
    lemma_signed_numeral(s, vars, a, 0, j, t);
    lemma_numeral(s, vars, b, j + 2, end, t);
    assert(past_spaces(s, j) == j && past_spaces(s, end) == end);
    assert(expression(s, vars, 6, j + 2, t) == power(s, vars, j + 2, t));
    let (n, t4) = float_binary(FloatOp::Power, Num::Int(a as i64), Num::Int(b as i64), t);
    assert(power(s, vars, 0, t) == (Ok::<(Num, int), Seq<char>>((n, end)), t4));
    assert(expression(s, vars, 6, 0, t) == power(s, vars, 0, t));
    lemma_no_operator(s, vars, 0, 6, 0, n, end, t, t4);
}

proof fn lemma_signed_numeral(s: Seq<char>, vars: Vars, n: int, i: int, j: int, t: TalkView)
    requires
        0 <= i < j <= s.len(),
        0 <= n <= i64::MAX,
        s.subrange(i, j) == text::int_text(n),
        j < s.len() ==> !text::is_digit_char(s[j]) && !text::is_space_char(s[j]) && s[j] != '.'
            && s[j] != '²' && s[j] != '³',
    ensures
        signed(s, vars, i, t) == (Ok::<(Num, int), Seq<char>>((Num::Int(n as i64), j)), t),
{
    let digits = s.subrange(i, j);
    text::lemma_nat_text_reads_back(n as nat);
    text::law_int_text_reads_back(n);
    assert forall|k: int| i <= k < j implies text::is_digit_char(#[trigger] s[k]) by {
        assert(digits[k - i] == s[k]);
    }
    lemma_digits_end(s, i, j);
    assert(past_spaces(s, i) == i);
    assert(past_spaces(s, j) == j);
    assert(primary(s, vars, i, t) == number(s, i, t));
    assert(raised(s, Num::Int(n as i64), j, t) == (
        Ok::<(Num, int), Seq<char>>((Num::Int(n as i64), j)),
        t,
    ));
}

/// A sign before a number: `-` gives its negative, `~` the number with every
/// bit turned, `+` the number itself.
pub proof fn law_signs_before_a_number(vars: Vars, n: int, t: TalkView)
    requires
        0 <= n <= i64::MAX,
    ensures
        evaluated(seq!['-'] + text::int_text(n), vars, t) == (
            Ok::<Num, Seq<char>>(Num::Int((-n) as i64)),
            t,
        ),
        evaluated(seq!['~'] + text::int_text(n), vars, t) == (
            Ok::<Num, Seq<char>>(Num::Int(!(n as i64))),
            t,
        ),
        evaluated(seq!['+'] + text::int_text(n), vars, t) == (
            Ok::<Num, Seq<char>>(Num::Int(n as i64)),
            t,
        ),
{
    lemma_sign(vars, '-', n, (-n) as i64, t);
    lemma_sign(vars, '~', n, !(n as i64), t);
    lemma_sign(vars, '+', n, n as i64, t);
}

proof fn lemma_sign(vars: Vars, c: char, n: int, v: i64, t: TalkView)
    requires
        0 <= n <= i64::MAX,
        c == '-' && v == -n || c == '~' && v == !(n as i64) || c == '+' && v == n,
    ensures
        evaluated(seq![c] + text::int_text(n), vars, t) == (Ok::<Num, Seq<char>>(Num::Int(v)), t),
{
    let d = text::int_text(n);
    let s = seq![c] + d;
    text::lemma_nat_text_reads_back(n as nat);
    let end = s.len() as int;
    assert(s.subrange(1, end) =~= d);
    lemma_signed_numeral(s, vars, n, 1, end, t);
    assert(past_spaces(s, 0) == 0 && past_spaces(s, end) == end);
    assert(signed(s, vars, 0, t) == (Ok::<(Num, int), Seq<char>>((Num::Int(v), end)), t));
    assert(power(s, vars, 0, t) == (Ok::<(Num, int), Seq<char>>((Num::Int(v), end)), t));
    assert(expression(s, vars, 6, 0, t) == power(s, vars, 0, t));
    lemma_no_operator(s, vars, 0, 6, 0, Num::Int(v), end, t, t);
}

/// Parentheses go first: what is added inside is multiplied as a whole.
pub proof fn law_parentheses_go_first(vars: Vars, op1: Op, op2: Op, a: int, b: int, c: int, t: TalkView)
    requires
        0 <= a <= i64::MAX,
        0 <= b <= i64::MAX,
        0 <= c <= i64::MAX,
        op1 == Op::Add || op1 == Op::Subtract || op1 == Op::Multiply,
    ensures
        evaluated(
            seq!['('] + text::int_text(a) + written(op1) + text::int_text(b) + seq![')'] + written(
                op2,
            ) + text::int_text(c),
            vars,
            t,
        ) == left_first(
            op1,
            op2,
            Num::Int(a as i64),
            Num::Int(b as i64),
            Num::Int(c as i64),
            t,
        ),
{
    let (ta, tb, tc) = (text::int_text(a), text::int_text(b), text::int_text(c));
    let (w1, w2) = (written(op1), written(op2));
    let s = seq!['('] + ta + w1 + tb + seq![')'] + w2 + tc;
    text::lemma_nat_text_reads_back(a as nat);
    text::lemma_nat_text_reads_back(b as nat);
    text::lemma_nat_text_reads_back(c as nat);
    let (x, y, z) = (Num::Int(a as i64), Num::Int(b as i64), Num::Int(c as i64));
    let ja = 1 + ta.len() as int;
    let ib = ja + w1.len();
    let jb = ib + tb.len();
    let jp = jb + 1;
    let ic = jp + w2.len();
    let end = s.len() as int;
    assert(s.subrange(1, ja) =~= ta);
    assert(s.subrange(ja, ib) =~= w1);
    assert(s.subrange(ib, jb) =~= tb);
    assert(s.subrange(jp, ic) =~= w2);
    assert(s.subrange(ic, end) =~= tc);
    assert(s[0] == '(' && s[jb] == ')');
    assert(s[ib] == tb[0] && text::is_digit_char(tb[0]));
    assert(s[ic] == tc[0] && text::is_digit_char(tc[0]));
    lemma_operator_here(s, ja, op1);
    lemma_operator_here(s, jp, op2);
    lemma_numeral(s, vars, a, 1, ja, t);
    lemma_numeral(s, vars, b, ib, jb, t);
    let (l1, l2) = (tightness(op1), tightness(op2));
    assert(past_spaces(s, jb) == jb && past_spaces(s, end) == end);
    assert(forall|m: int| 0 <= m < 6 ==> (#[trigger] operator_at(s, jb, m)) is None);
    lemma_no_operator(s, vars, l1 + 1, 6, 1, x, ja, t, t);
    lemma_no_operator(s, vars, l1 + 1, 6, ib, y, jb, t, t);
    let p = applied(op1, x, y, t).0->Ok_0;
    assert(applied(op1, x, y, t) == (Ok::<Num, Seq<char>>(p), t));
    assert(more_operands(s, vars, l1, p, jb, t) == (Ok::<(Num, int), Seq<char>>((p, jb)), t));
    assert(more_operands(s, vars, l1, x, ja, t) == (Ok::<(Num, int), Seq<char>>((p, jb)), t));
    assert(expression(s, vars, l1, 1, t) == (Ok::<(Num, int), Seq<char>>((p, jb)), t));
    lemma_no_operator(s, vars, 0, l1, 1, p, jb, t, t);
    assert(past_spaces(s, 0) == 0);
    assert(primary(s, vars, 0, t) == (Ok::<(Num, int), Seq<char>>((p, jp)), t));
    assert(past_spaces(s, jp) == jp);
    assert(raised(s, p, jp, t) == (Ok::<(Num, int), Seq<char>>((p, jp)), t));
    assert(signed(s, vars, 0, t) == (Ok::<(Num, int), Seq<char>>((p, jp)), t));
    assert(power(s, vars, 0, t) == (Ok::<(Num, int), Seq<char>>((p, jp)), t));
    assert(expression(s, vars, 6, 0, t) == power(s, vars, 0, t));
    lemma_no_operator(s, vars, l2 + 1, 6, 0, p, jp, t, t);
    lemma_numeral(s, vars, c, ic, end, t);
    lemma_no_operator(s, vars, l2 + 1, 6, ic, z, end, t, t);
    lemma_last_operator(s, vars, l2, p, z, op2, 0, jp, ic, end, t, t, t);
}

/// A variable stands for the integer that it holds, or else for the number
/// that its text is answered as; one that does not exist, or holds no number,
/// is an error.
pub proof fn law_variables_stand_for_numbers(vars: Vars, name: Seq<char>, t: TalkView)
    ensures
        names::visible(vars, name) is None ==> variable(vars, name, t).0 is Err && variable(
            vars,
            name,
            t,
        ).1 == t,
        forall|n: i64|
            names::visible(vars, name) == Some(#[trigger] text::int_text(n as int)) ==> variable(
                vars,
                name,
                t,
            ) == (Ok::<Num, Seq<char>>(Num::Int(n)), t),
        names::visible(vars, name) matches Some(u) && text::i64_of_text(u) is None ==> {
            let (a, t2) = dialog::asked(
                t,
                dialog::RequestView::Float(dialog::FloatCallView::Parse(names::visible(vars, name)->0)),
            );
            variable(vars, name, t).1 == t2 && (match a {
                dialog::AnswerView::Number(f) => variable(vars, name, t).0 == Ok::<Num, Seq<char>>(
                    Num::Float(f),
                ),
                _ => variable(vars, name, t).0 is Err,
            })
        },
{
    assert forall|n: i64|
        names::visible(vars, name) == Some(#[trigger] text::int_text(n as int)) implies variable(
        vars,
        name,
        t,
    ) == (Ok::<Num, Seq<char>>(Num::Int(n)), t) by {
        text::law_int_text_reads_back(n as int);
    }
}

/// An integer is shown in decimal; a floating-point number as it is answered.
pub proof fn law_values_are_shown(i: i64, f: u64, t: TalkView)
    ensures
        shown(Num::Int(i), t) == (text::int_text(i as int), t),
        shown(Num::Float(f), t) == ({
            let (a, t2) = dialog::asked(
                t,
                dialog::RequestView::Float(dialog::FloatCallView::Show(f)),
            );
            (a.as_text(), t2)
        }),
{
}

} // verus!
