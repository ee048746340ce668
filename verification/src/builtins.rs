//! The condition builtins: `test`, `matches`, `bool`, `contains`,
//! `starts-with`, `ends-with`, `eq` and `isatty`.
//!
//! A form that is not supported gives a diagnostic and counts as false.

use crate::dialog;
use crate::dialog::{Answer, FloatCall, Request, Talk, TalkView};
use crate::text;
use crate::text::{
    cat2, cat3, cat4, cat5, chars_of, find_from, has_prefix, has_suffix, i64_text, join_texts, parse_i64,
    same,
};
use vstd::prelude::*;

verus! {

/// The numeric comparisons of `test`.
#[derive(Debug, Clone, Copy, PartialEq, Eq, Structural)]
pub enum NumberTest {
    Equal,
    NotEqual,
    Less,
    LessOrEqual,
    Greater,
    GreaterOrEqual,
}

/// How far the number with these 64 bits is from zero, in the order of the
/// numbers: the bits without the sign.
pub open spec fn magnitude(bits: u64) -> int {
    if bits >= 0x8000_0000_0000_0000 {
        bits - 0x8000_0000_0000_0000
    } else {
        bits as int
    }
}

/// Whether these 64 bits stand for no number.
pub open spec fn is_nan(bits: u64) -> bool {
    magnitude(bits) > 0x7ff0_0000_0000_0000
}

/// Where the number with these 64 bits stands in the order of the numbers;
/// both zeros stand in one place.
pub open spec fn rank(bits: u64) -> int {
    if bits >= 0x8000_0000_0000_0000 {
        -magnitude(bits)
    } else {
        magnitude(bits)
    }
}

/// Whether a comparison of two numbers holds. What is no number differs from
/// everything, and no other comparison holds of it.
pub open spec fn number_holds(which: NumberTest, m: u64, n: u64) -> bool {
    if is_nan(m) || is_nan(n) {
        which == NumberTest::NotEqual
    } else {
        match which {
            NumberTest::Equal => rank(m) == rank(n),
            NumberTest::NotEqual => rank(m) != rank(n),
            NumberTest::Less => rank(m) < rank(n),
            NumberTest::LessOrEqual => rank(m) <= rank(n),
            NumberTest::Greater => rank(m) > rank(n),
            NumberTest::GreaterOrEqual => rank(m) >= rank(n),
        }
    }
}

fn find_magnitude(bits: u64) -> (r: u64)
    ensures
        r == magnitude(bits),
        r < 0x8000_0000_0000_0000,
{
    if bits >= 0x8000_0000_0000_0000 {
        bits - 0x8000_0000_0000_0000
    } else {
        bits
    }
}

fn find_rank(bits: u64) -> (r: i64)
    ensures
        r == rank(bits),
{
    let size = find_magnitude(bits) as i64;
    if bits >= 0x8000_0000_0000_0000 {
        -size
    } else {
        size
    }
}

/// Compares two numbers.
pub fn compare_numbers(which: NumberTest, m: u64, n: u64) -> (r: bool)
    ensures
        r == number_holds(which, m, n),
{
    if find_magnitude(m) > 0x7ff0_0000_0000_0000 || find_magnitude(n) > 0x7ff0_0000_0000_0000 {
        return match which {
            NumberTest::NotEqual => true,
            _ => false,
        };
    }
    let x = find_rank(m);
    let y = find_rank(n);
    match which {
        NumberTest::Equal => x == y,
        NumberTest::NotEqual => x != y,
        NumberTest::Less => x < y,
        NumberTest::LessOrEqual => x <= y,
        NumberTest::Greater => x > y,
        NumberTest::GreaterOrEqual => x >= y,
    }
}

/// The numeric comparison that an operator of `test` writes.
pub open spec fn number_test_of(op: Seq<char>) -> Option<NumberTest> {
    if op == "-eq"@ {
        Some(NumberTest::Equal)
    } else if op == "-ne"@ {
        Some(NumberTest::NotEqual)
    } else if op == "-lt"@ {
        Some(NumberTest::Less)
    } else if op == "-le"@ {
        Some(NumberTest::LessOrEqual)
    } else if op == "-gt"@ {
        Some(NumberTest::Greater)
    } else if op == "-ge"@ {
        Some(NumberTest::GreaterOrEqual)
    } else {
        None
    }
}

/// Whether `a op b` holds: `=` and `==` compare the texts for equality, `!=`
/// for difference, and the numeric operators compare the numbers they write.
pub open spec fn compared(a: Seq<char>, op: Seq<char>, b: Seq<char>, t: TalkView) -> (
    bool,
    TalkView,
) {
    if op == "="@ || op == "=="@ {
        (a == b, t)
    } else if op == "!="@ {
        (a != b, t)
    } else {
        match number_test_of(op) {
            Some(which) => {
                let (x, t1) = dialog::asked(
                    t,
                    dialog::RequestView::Float(dialog::FloatCallView::Parse(a)),
                );
                let (y, t2) = dialog::asked(
                    t1,
                    dialog::RequestView::Float(dialog::FloatCallView::Parse(b)),
                );
                match (x, y) {
                    (dialog::AnswerView::Number(m), dialog::AnswerView::Number(n)) => (
                        number_holds(which, m, n),
                        t2,
                    ),
                    _ => (
                        false,
                        dialog::warned(
                            t2,
                            "ion: test: '"@ + a + "' or '"@ + b + "' is not a number"@,
                        ),
                    ),
                }
            },
            None => (
                false,
                dialog::warned(t, "ion: test: unsupported operator: "@ + op),
            ),
        }
    }
}

/// Whether a `test` expression holds. No argument is false; one is true unless
/// it is empty; `-n` and `-z` ask whether a text is not empty or empty; `-e`,
/// `-f` and `-d` ask about a path; three arguments are a comparison.
pub open spec fn tested(args: Seq<Seq<char>>, t: TalkView) -> (bool, TalkView) {
    if args.len() == 0 {
        (false, t)
    } else if args.len() == 1 {
        (args[0].len() > 0, t)
    } else if args.len() == 2 && args[0] == "-n"@ {
        (args[1].len() > 0, t)
    } else if args.len() == 2 && args[0] == "-z"@ {
        (args[1].len() == 0, t)
    } else if args.len() == 2 && args[0] == "-e"@ {
        let (a, t2) = dialog::asked(t, dialog::RequestView::Exists(args[1]));
        (a.as_truth(), t2)
    } else if args.len() == 2 && args[0] == "-f"@ {
        let (a, t2) = dialog::asked(t, dialog::RequestView::IsFile(args[1]));
        (a.as_truth(), t2)
    } else if args.len() == 2 && args[0] == "-d"@ {
        let (a, t2) = dialog::asked(t, dialog::RequestView::IsDirectory(args[1]));
        (a.as_truth(), t2)
    } else if args.len() == 3 {
        compared(args[0], args[1], args[2], t)
    } else {
        (
            false,
            dialog::warned(t, "ion: test: unsupported expression: "@ + text::joined(args, " "@)),
        )
    }
}

fn number_test(op: &str) -> (r: Option<NumberTest>)
    ensures
        r == number_test_of(op@),
{
    if same(op, "-eq") {
        Some(NumberTest::Equal)
    } else if same(op, "-ne") {
        Some(NumberTest::NotEqual)
    } else if same(op, "-lt") {
        Some(NumberTest::Less)
    } else if same(op, "-le") {
        Some(NumberTest::LessOrEqual)
    } else if same(op, "-gt") {
        Some(NumberTest::Greater)
    } else if same(op, "-ge") {
        Some(NumberTest::GreaterOrEqual)
    } else {
        None
    }
}

/// Compares two texts by an operator of `test`.
pub fn eval_binary(a: &str, op: &str, b: &str, talk: &mut Talk) -> (r: bool)
    ensures
        (r, final(talk)@) == compared(a@, op@, b@, old(talk)@),
{
    if same(op, "=") || same(op, "==") {
        return same(a, b);
    }
    if same(op, "!=") {
        return !same(a, b);
    }
    match number_test(op) {
        Some(which) => {
            let x = talk.ask(Request::Float(FloatCall::Parse(a.to_owned())));
            let y = talk.ask(Request::Float(FloatCall::Parse(b.to_owned())));
            match (x, y) {
                (Answer::Number(m), Answer::Number(n)) => compare_numbers(which, m, n),
                _ => {
                    talk.warn(cat5("ion: test: '", a, "' or '", b, "' is not a number"));
                    false
                },
            }
        },
        None => {
            talk.warn(cat2("ion: test: unsupported operator: ", op));
            false
        },
    }
}

/// Evaluates a `test` expression.
pub fn eval_test(args: &[String], talk: &mut Talk) -> (r: bool)
    ensures
        (r, final(talk)@) == tested(text::texts(args@), old(talk)@),
{
    if args.len() == 0 {
        return false;
    }
    if args.len() == 1 {
        return !args[0].as_str().is_empty();
    }
    if args.len() == 2 {
        let flag = args[0].as_str();
        if same(flag, "-n") {
            return !args[1].as_str().is_empty();
        }
        if same(flag, "-z") {
            return args[1].as_str().is_empty();
        }
        if same(flag, "-e") {
            let a = talk.ask(Request::Exists(args[1].clone()));
            return a.truth();
        }
        if same(flag, "-f") {
            let a = talk.ask(Request::IsFile(args[1].clone()));
            return a.truth();
        }
        if same(flag, "-d") {
            let a = talk.ask(Request::IsDirectory(args[1].clone()));
            return a.truth();
        }
    }
    if args.len() == 3 {
        return eval_binary(args[0].as_str(), args[1].as_str(), args[2].as_str(), talk);
    }
    let all = join_texts(args, " ");
    talk.warn(cat2("ion: test: unsupported expression: ", all.as_str()));
    false
}

/// Gives a diagnostic that is the answer `false`.
fn refuse(talk: &mut Talk, message: &str) -> (r: bool)
    ensures
        !r,
        final(talk)@ == dialog::warned(old(talk)@, message@),
{
    talk.warn(message.to_owned());
    false
}

/// `bool VALUE`: true for `1` and `true`.
pub fn eval_bool(args: &[String], talk: &mut Talk) -> (r: bool)
    ensures
        args@.len() == 1 ==> r == (args@[0]@ == "1"@ || args@[0]@ == "true"@) && final(talk)@
            == old(talk)@,
        args@.len() != 1 ==> !r && final(talk)@ == dialog::warned(
            old(talk)@,
            "ion: bool: usage: bool VALUE"@,
        ),
{
    if args.len() != 1 {
        return refuse(talk, "ion: bool: usage: bool VALUE");
    }
    same(args[0].as_str(), "1") || same(args[0].as_str(), "true")
}

/// Whether `needle` stands somewhere in `s`.
pub open spec fn holds_part(s: Seq<char>, needle: Seq<char>) -> bool {
    exists|i: int| text::occurs_at(s, needle, i)
}

fn has_part(s: &str, needle: &str) -> (r: bool)
    ensures
        r == holds_part(s@, needle@),
{
    let v = chars_of(s);
    let p = chars_of(needle);
    proof {
        text::lemma_found_is_first(v@, p@, 0);
    }
    find_from(&v, &p, 0).is_some()
}

/// `contains VALUE PARTS...`: whether some part stands in the value.
pub fn eval_contains(args: &[String], talk: &mut Talk) -> (r: bool)
    ensures
        args@.len() >= 2 ==> final(talk)@ == old(talk)@ && r == exists|i: int|
            1 <= i < args@.len() && holds_part(args@[0]@, #[trigger] args@[i]@),
        args@.len() < 2 ==> !r && final(talk)@ == dialog::warned(
            old(talk)@,
            "ion: contains: usage: contains <PATTERN> tests..."@,
        ),
{
    if args.len() < 2 {
        return refuse(talk, "ion: contains: usage: contains <PATTERN> tests...");
    }
    let mut i: usize = 1;
    while i < args.len()
        invariant
            1 <= i <= args@.len(),
            *talk == *old(talk),
            forall|k: int| 1 <= k < i ==> !holds_part(args@[0]@, #[trigger] args@[k]@),
        decreases args@.len() - i,
    {
        if has_part(args[0].as_str(), args[i].as_str()) {
            assert(holds_part(args@[0]@, args@[i as int]@));
            return true;
        }
        i = i + 1;
    }
    false
}

/// `starts-with VALUE PREFIXES...`: whether the value begins with some prefix.
pub fn eval_starts_with(args: &[String], talk: &mut Talk) -> (r: bool)
    ensures
        args@.len() >= 2 ==> final(talk)@ == old(talk)@ && r == exists|i: int|
            1 <= i < args@.len() && text::begins_with(args@[0]@, #[trigger] args@[i]@),
        args@.len() < 2 ==> !r && final(talk)@ == dialog::warned(
            old(talk)@,
            "ion: starts-with: usage: starts-with <PATTERN> tests..."@,
        ),
{
    if args.len() < 2 {
        return refuse(talk, "ion: starts-with: usage: starts-with <PATTERN> tests...");
    }
    let mut i: usize = 1;
    while i < args.len()
        invariant
            1 <= i <= args@.len(),
            *talk == *old(talk),
            forall|k: int| 1 <= k < i ==> !text::begins_with(args@[0]@, #[trigger] args@[k]@),
        decreases args@.len() - i,
    {
        if has_prefix(args[0].as_str(), args[i].as_str()) {
            assert(text::begins_with(args@[0]@, args@[i as int]@));
            return true;
        }
        i = i + 1;
    }
    false
}

/// `ends-with VALUE SUFFIXES...`: whether the value ends with some suffix.
pub fn eval_ends_with(args: &[String], talk: &mut Talk) -> (r: bool)
    ensures
        args@.len() >= 2 ==> final(talk)@ == old(talk)@ && r == exists|i: int|
            1 <= i < args@.len() && text::finishes_with(args@[0]@, #[trigger] args@[i]@),
        args@.len() < 2 ==> !r && final(talk)@ == dialog::warned(
            old(talk)@,
            "ion: ends-with: usage: ends-with <PATTERN> tests..."@,
        ),
{
    if args.len() < 2 {
        return refuse(talk, "ion: ends-with: usage: ends-with <PATTERN> tests...");
    }
    let mut i: usize = 1;
    while i < args.len()
        invariant
            1 <= i <= args@.len(),
            *talk == *old(talk),
            forall|k: int| 1 <= k < i ==> !text::finishes_with(args@[0]@, #[trigger] args@[k]@),
        decreases args@.len() - i,
    {
        if has_suffix(args[0].as_str(), args[i].as_str()) {
            assert(text::finishes_with(args@[0]@, args@[i as int]@));
            return true;
        }
        i = i + 1;
    }
    false
}

/// Whether an `eq` expression holds: two values are equal, or, behind `not`,
/// they differ.
pub open spec fn equated(args: Seq<Seq<char>>, t: TalkView) -> (bool, TalkView) {
    if args.len() == 2 {
        (args[0] == args[1], t)
    } else if args.len() == 3 && args[0] == "not"@ {
        (args[1] != args[2], t)
    } else {
        (false, dialog::warned(t, "ion: is: usage: is [not] VALUE VALUE"@))
    }
}

/// `eq [not] VALUE VALUE`.
pub fn eval_eq(args: &[String], talk: &mut Talk) -> (r: bool)
    ensures
        (r, final(talk)@) == equated(text::texts(args@), old(talk)@),
{
    if args.len() == 2 {
        return same(args[0].as_str(), args[1].as_str());
    }
    if args.len() == 3 && same(args[0].as_str(), "not") {
        return !same(args[1].as_str(), args[2].as_str());
    }
    refuse(talk, "ion: is: usage: is [not] VALUE VALUE")
}

/// Whether an `isatty` expression holds: always without an argument, and else
/// when the stream that the argument numbers is a terminal. Only the three
/// standard streams can be asked about.
pub open spec fn terminal_tested(args: Seq<Seq<char>>, t: TalkView) -> (bool, TalkView) {
    if args.len() == 0 {
        (true, t)
    } else if args.len() == 1 {
        match text::int_of_text(args[0]) {
            Some(n) if i32::MIN <= n <= i32::MAX => if 0 <= n <= 2 {
                let (a, t2) = dialog::asked(t, dialog::RequestView::IsTerminal(n as u8));
                (a.as_truth(), t2)
            } else {
                (
                    false,
                    dialog::warned(
                        t,
                        "ion-win: isatty: unsupported file descriptor "@ + text::int_text(n)
                            + " (only 0/1/2 are supported on Windows)"@,
                    ),
                )
            },
            _ => (false, dialog::warned(t, "ion: isatty: given bad number"@)),
        }
    } else {
        (false, dialog::warned(t, "ion: isatty: usage: isatty [FD]"@))
    }
}

/// `isatty [FD]`.
pub fn eval_isatty(args: &[String], talk: &mut Talk) -> (r: bool)
    ensures
        (r, final(talk)@) == terminal_tested(text::texts(args@), old(talk)@),
{
    if args.len() == 0 {
        return true;
    }
    if args.len() > 1 {
        return refuse(talk, "ion: isatty: usage: isatty [FD]");
    }
    match parse_i64(args[0].as_str()) {
        Some(n) => {
            if n < i32::MIN as i64 || n > i32::MAX as i64 {
                return refuse(talk, "ion: isatty: given bad number");
            }
            if 0 <= n && n <= 2 {
                let a = talk.ask(Request::IsTerminal(n as u8));
                return a.truth();
            }
            let number = i64_text(n);
            talk.warn(
                cat3(
                    "ion-win: isatty: unsupported file descriptor ",
                    number.as_str(),
                    " (only 0/1/2 are supported on Windows)",
                ),
            );
            false
        },
        None => refuse(talk, "ion: isatty: given bad number"),
    }
}

/// Whether the regular expression `pattern` matches somewhere in `value`, or
/// the message for a pattern that is no regular expression.
pub uninterp spec fn regex_matched(pattern: Seq<char>, value: Seq<char>) -> Result<
    bool,
    Seq<char>,
>;

/// What a match result says.
pub open spec fn match_view(r: Result<bool, String>) -> Result<bool, Seq<char>> {
    match r {
        Ok(b) => Ok(b),
        Err(e) => Err(e@),
    }
}

/// `regex::Regex::new` and `Regex::is_match`: compiles the pattern and looks
/// for a match anywhere in the value, or gives the compile error's text. The
/// result depends on the two strings alone.
#[verifier::external_body]
pub(crate) fn match_regex(pattern: &str, value: &str) -> (r: Result<bool, String>)
    ensures
        match_view(r) == regex_matched(pattern@, value@),
{
    match regex::Regex::new(pattern) {
        Ok(re) => Ok(re.is_match(value)),
        Err(e) => Err(e.to_string()),
    }
}

/// The answer of `matches` for what the match gave.
pub open spec fn match_reported(
    pattern: Seq<char>,
    outcome: Result<bool, Seq<char>>,
    t: TalkView,
) -> (bool, TalkView) {
    match outcome {
        Ok(b) => (b, t),
        Err(e) => (
            false,
            dialog::warned(t, "ion: matches: invalid pattern '"@ + pattern + "': "@ + e),
        ),
    }
}

/// Reports what a match by regular expression gave.
pub fn report_match(pattern: &str, outcome: Result<bool, String>, talk: &mut Talk) -> (r: bool)
    ensures
        (r, final(talk)@) == match_reported(pattern@, match_view(outcome), old(talk)@),
{
    match outcome {
        Ok(b) => b,
        Err(e) => {
            talk.warn(cat4("ion: matches: invalid pattern '", pattern, "': ", e.as_str()));
            false
        },
    }
}

/// Whether a `matches` expression holds.
pub open spec fn matched(args: Seq<Seq<char>>, t: TalkView) -> (bool, TalkView) {
    if args.len() == 2 {
        match_reported(args[1], regex_matched(args[1], args[0]), t)
    } else {
        (false, dialog::warned(t, "ion: matches: usage: matches VALUE PATTERN"@))
    }
}

/// `matches VALUE PATTERN`.
pub fn eval_matches(args: &[String], talk: &mut Talk) -> (r: bool)
    ensures
        (r, final(talk)@) == matched(text::texts(args@), old(talk)@),
{
    if args.len() != 2 {
        return refuse(talk, "ion: matches: usage: matches VALUE PATTERN");
    }
    let outcome = match_regex(args[1].as_str(), args[0].as_str());
    report_match(args[1].as_str(), outcome, talk)
}

/// Equality and difference of texts are opposites, whatever the texts.
pub proof fn law_equal_and_different_are_opposites(a: Seq<char>, b: Seq<char>, t: TalkView)
    ensures
        compared(a, "="@, b, t).0 == !compared(a, "!="@, b, t).0,
        compared(a, "="@, b, t) == compared(a, "=="@, b, t),
        equated(seq![a, b], t).0 == !equated(seq!["not"@, a, b], t).0,
{
    reveal_strlit("=");
    reveal_strlit("==");
    reveal_strlit("!=");
    assert("="@.len() == 1 && "=="@.len() == 2 && "!="@.len() == 2);
    assert("!="@[0] != "=="@[0]);
}

/// What the texts of a comparison are answered as: two numbers, or not.
pub open spec fn read_numbers(a: Seq<char>, b: Seq<char>, t: TalkView) -> Option<(u64, u64)> {
    let (x, t1) = dialog::asked(t, dialog::RequestView::Float(dialog::FloatCallView::Parse(a)));
    let (y, _) = dialog::asked(t1, dialog::RequestView::Float(dialog::FloatCallView::Parse(b)));
    match (x, y) {
        (dialog::AnswerView::Number(m), dialog::AnswerView::Number(n)) => Some((m, n)),
        _ => None,
    }
}

proof fn lemma_operators_differ()
    ensures
        number_test_of("-eq"@) == Some(NumberTest::Equal),
        number_test_of("-ne"@) == Some(NumberTest::NotEqual),
        number_test_of("-lt"@) == Some(NumberTest::Less),
        number_test_of("-le"@) == Some(NumberTest::LessOrEqual),
        number_test_of("-gt"@) == Some(NumberTest::Greater),
        number_test_of("-ge"@) == Some(NumberTest::GreaterOrEqual),
        forall|op: Seq<char>| #[trigger]
            number_test_of(op) is Some ==> op != "="@ && op != "=="@ && op != "!="@,
{
    reveal_strlit("=");
    reveal_strlit("==");
    reveal_strlit("!=");
    reveal_strlit("-eq");
    reveal_strlit("-ne");
    reveal_strlit("-lt");
    reveal_strlit("-le");
    reveal_strlit("-gt");
    reveal_strlit("-ge");
    assert("="@.len() == 1 && "=="@.len() == 2 && "!="@.len() == 2);
    assert("-eq"@.len() == 3 && "-ne"@.len() == 3 && "-lt"@.len() == 3);
    assert("-le"@.len() == 3 && "-gt"@.len() == 3 && "-ge"@.len() == 3);
    assert("-eq"@[1] == 'e' && "-ne"@[1] == 'n' && "-lt"@[1] == 'l');
    assert("-le"@[1] == 'l' && "-gt"@[1] == 'g' && "-ge"@[1] == 'g');
    assert("-lt"@[2] == 't' && "-le"@[2] == 'e' && "-gt"@[2] == 't' && "-ge"@[2] == 'e');
}

/// Of two texts that write numbers, one is less than, equal to or greater than
/// the other, and only one of the three; and each comparison has its opposite.
pub proof fn law_numbers_are_ordered(a: Seq<char>, b: Seq<char>, t: TalkView)
    requires
        read_numbers(a, b, t) matches Some((m, n)) && !is_nan(m) && !is_nan(n),
    ensures
        ({
            let less = tested(seq![a, "-lt"@, b], t).0;
            let equal = tested(seq![a, "-eq"@, b], t).0;
            let greater = tested(seq![a, "-gt"@, b], t).0;
            &&& less || equal || greater
            &&& !(less && equal)
            &&& !(less && greater)
            &&& !(equal && greater)
            &&& tested(seq![a, "-ne"@, b], t).0 == !equal
            &&& tested(seq![a, "-le"@, b], t).0 == !greater
            &&& tested(seq![a, "-ge"@, b], t).0 == !less
        }),
{
    lemma_operators_differ();
}

/// Where one of two texts writes no number, none of the numeric comparisons
/// holds.
pub proof fn law_texts_are_not_ordered(a: Seq<char>, op: Seq<char>, b: Seq<char>, t: TalkView)
    requires
        number_test_of(op) is Some,
        read_numbers(a, b, t) is None,
    ensures
        !tested(seq![a, op, b], t).0,
{
    lemma_operators_differ();
}

/// Where one of two numbers is not a number in the order, it differs from the
/// other, and no other comparison holds.
pub proof fn law_nan_is_unordered(a: Seq<char>, op: Seq<char>, b: Seq<char>, t: TalkView)
    requires
        number_test_of(op) is Some,
        read_numbers(a, b, t) matches Some((m, n)) && (is_nan(m) || is_nan(n)),
    ensures
        tested(seq![a, op, b], t).0 == (op == "-ne"@),
{
    lemma_operators_differ();
}

/// `test` compares texts by `=`, `==` and `!=` as they are written.
pub proof fn law_texts_are_compared_as_written(a: Seq<char>, b: Seq<char>, t: TalkView)
    ensures
        tested(seq![a, "="@, b], t) == (a == b, t),
        tested(seq![a, "=="@, b], t) == (a == b, t),
        tested(seq![a, "!="@, b], t) == (a != b, t),
{
    law_equal_and_different_are_opposites(a, b, t);
    lemma_texts_differ();
}

proof fn lemma_texts_differ()
    ensures
        "!="@ != "="@,
        "!="@ != "=="@,
{
    reveal_strlit("=");
    reveal_strlit("==");
    reveal_strlit("!=");
    assert("="@.len() == 1 && "=="@.len() == 2 && "!="@.len() == 2);
    assert("!="@[0] != "=="@[0]);
}

/// Where two texts are read as numbers, the six comparisons go by where the
/// numbers stand in their order; and of numbers that are not negative, those
/// with the greater bits stand higher, of negative ones lower, and a negative
/// one never above one that is not.
pub proof fn law_numbers_go_by_rank(a: Seq<char>, b: Seq<char>, t: TalkView)
    requires
        read_numbers(a, b, t) matches Some((m, n)) && !is_nan(m) && !is_nan(n),
    ensures
        ({
            let (m, n) = read_numbers(a, b, t)->0;
            &&& tested(seq![a, "-lt"@, b], t).0 == (rank(m) < rank(n))
            &&& tested(seq![a, "-le"@, b], t).0 == (rank(m) <= rank(n))
            &&& tested(seq![a, "-eq"@, b], t).0 == (rank(m) == rank(n))
            &&& tested(seq![a, "-ne"@, b], t).0 == (rank(m) != rank(n))
            &&& tested(seq![a, "-ge"@, b], t).0 == (rank(m) >= rank(n))
            &&& tested(seq![a, "-gt"@, b], t).0 == (rank(m) > rank(n))
            &&& m < 0x8000_0000_0000_0000 && n < 0x8000_0000_0000_0000 ==> (rank(m) < rank(n)) == (m
                < n)
            &&& m >= 0x8000_0000_0000_0000 && n >= 0x8000_0000_0000_0000 ==> (rank(m) < rank(n)) == (
            m > n)
            &&& m >= 0x8000_0000_0000_0000 && n < 0x8000_0000_0000_0000 ==> rank(m) <= rank(n) && (
            rank(m) == rank(n)) == (m == 0x8000_0000_0000_0000 && n == 0)
        }),
{
    lemma_operators_differ();
}

/// A numeric comparison asks which numbers the two texts write, the left one
/// first, and nothing else.
pub proof fn law_numbers_are_asked_for(a: Seq<char>, op: Seq<char>, b: Seq<char>, t: TalkView)
    requires
        number_test_of(op) is Some,
        t.pending is None,
        0 <= t.next,
        t.next + 2 <= t.answers.len(),
    ensures
        tested(seq![a, op, b], t).1.made == t.made.push(
            dialog::RequestView::Float(dialog::FloatCallView::Parse(a)),
        ).push(dialog::RequestView::Float(dialog::FloatCallView::Parse(b))),
        tested(seq![a, op, b], t).1.next == t.next + 2,
{
    lemma_operators_differ();
}

/// `test` with a flag asks what the flag stands for: `-n` and `-z` whether the
/// text is not empty or empty, `-e`, `-f` and `-d` whether the path exists, is
/// a file or is a directory, each by a request of its own.
pub proof fn law_flags_ask_their_own(x: Seq<char>, t: TalkView)
    requires
        t.pending is None,
        0 <= t.next < t.answers.len(),
    ensures
        ({
            let asks = |flag: Seq<char>, r: dialog::RequestView|
                tested(seq![flag, x], t).0 == t.answers[t.next].as_truth() && tested(
                    seq![flag, x],
                    t,
                ).1.made == t.made.push(r);
            &&& tested(seq!["-n"@, x], t) == (x.len() > 0, t)
            &&& tested(seq!["-z"@, x], t) == (x.len() == 0, t)
            &&& asks("-e"@, dialog::RequestView::Exists(x))
            &&& asks("-f"@, dialog::RequestView::IsFile(x))
            &&& asks("-d"@, dialog::RequestView::IsDirectory(x))
            &&& tested(seq![x], t) == (x.len() > 0, t)
            &&& tested(Seq::empty(), t) == (false, t)
        }),
{
    reveal_strlit("-n");
    reveal_strlit("-z");
    reveal_strlit("-e");
    reveal_strlit("-f");
    reveal_strlit("-d");
    assert("-n"@[1] == 'n' && "-z"@[1] == 'z' && "-e"@[1] == 'e' && "-f"@[1] == 'f' && "-d"@[1]
        == 'd');
}

/// `isatty` asks about the stream that its number names, and about no other.
pub proof fn law_terminals_are_asked_for_by_number(n: int, t: TalkView)
    requires
        i64::MIN <= n <= i64::MAX,
        t.pending is None,
        0 <= t.next < t.answers.len(),
    ensures
        ({
            let (r, t2) = terminal_tested(seq![text::int_text(n)], t);
            &&& 0 <= n <= 2 ==> r == t.answers[t.next].as_truth() && t2.made == t.made.push(
                dialog::RequestView::IsTerminal(n as u8),
            )
            &&& !(0 <= n <= 2) ==> !r && t2.made == t.made
        }),
{
    text::law_int_text_reads_back(n);
}

/// A text holds what stands in the middle of it, begins with what stands at
/// its front and ends with what stands at its end; nothing longer than it.
pub proof fn law_parts_are_held(a: Seq<char>, m: Seq<char>, b: Seq<char>, s: Seq<char>)
    ensures
        holds_part(a + m + b, m),
        text::begins_with(m + b, m),
        text::finishes_with(a + m, m),
        s.len() < m.len() ==> !holds_part(s, m) && !text::begins_with(s, m)
            && !text::finishes_with(s, m),
        holds_part(s, m) && m.len() > 0 ==> s.contains(m[0]) && s.contains(m.last()),
        text::finishes_with(s, m) && m.len() > 0 ==> s.last() == m.last(),
        text::begins_with(s, m) && m.len() > 0 ==> s[0] == m[0],
{
    let whole = a + m + b;
    let at = a.len() as int;
    assert(whole.subrange(at, at + m.len()) =~= m);
    assert(text::occurs_at(whole, m, at));
    assert((m + b).take(m.len() as int) =~= m);
    assert((a + m).skip(at) =~= m);
    if holds_part(s, m) && m.len() > 0 {
        let i = choose|i: int| text::occurs_at(s, m, i);
        assert(s.subrange(i, i + m.len())[0] == s[i]);
        assert(s.subrange(i, i + m.len())[m.len() - 1] == s[i + m.len() - 1]);
    }
    if text::finishes_with(s, m) && m.len() > 0 {
        assert(s.skip(s.len() - m.len())[m.len() - 1] == s[s.len() - 1]);
    }
    if text::begins_with(s, m) && m.len() > 0 {
        assert(s.take(m.len() as int)[0] == s[0]);
    }
}

/// `matches` holds exactly when the value matches the pattern behind it, and
/// says nothing then; a pattern that is none is told of and does not match.
pub proof fn law_matching_follows_the_pattern(value: Seq<char>, pattern: Seq<char>, t: TalkView)
    ensures
        ({
            let (r, t1) = matched(seq![value, pattern], t);
            let found = regex_matched(pattern, value);
            &&& found is Ok ==> r == found->Ok_0 && t1 == t
            &&& found is Err ==> !r && t1.notes.len() == t.notes.len() + 1 && t1.made == t.made
        }),
        !matched(seq![value], t).0,
{
}

} // verus!
