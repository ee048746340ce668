//! Process expansion: the output of a single external command.

use crate::dialog;
use crate::dialog::{Answer, Request, Talk, TalkView};
use crate::methods;
use crate::text;
use crate::text::{cat2, cat4, chars_of, copy_texts, sub_chars, text_of};
use vstd::prelude::*;

verus! {

/// `s` without the line ends at its end.
pub open spec fn without_newlines(s: Seq<char>) -> Seq<char>
    decreases s.len(),
{
    if s.len() > 0 && (s.last() == '\n' || s.last() == '\r') {
        without_newlines(s.drop_last())
    } else {
        s
    }
}

/// Cuts the line ends at the end of a text.
pub fn trim_newlines(s: &str) -> (r: String)
    ensures
        r@ == without_newlines(s@),
{
    let v = chars_of(s);
    let mut n: usize = v.len();
    assert(v@.take(n as int) =~= v@);
    while n > 0 && (v[n - 1] == '\n' || v[n - 1] == '\r')
        invariant
            n <= v@.len(),
            without_newlines(v@) == without_newlines(v@.take(n as int)),
        decreases n,
    {
        assert(v@.take(n as int).drop_last() =~= v@.take(n - 1));
        n = n - 1;
    }
    assert(v@.subrange(0, n as int) =~= v@.take(n as int));
    let front = sub_chars(&v, 0, n);
    text_of(&front)
}

/// What running `args` gives: the program's output without the line ends at
/// its end, or a message.
pub open spec fn program_output(args: Seq<Seq<char>>, t: TalkView) -> (
    methods::TextOutcome,
    TalkView,
) {
    if args.len() == 0 {
        (Err("empty command in process expansion"@), t)
    } else {
        let (a, t2) = dialog::asked(t, dialog::RequestView::Program(args));
        (
            match a {
                dialog::AnswerView::Text(raw) => Ok(without_newlines(raw)),
                dialog::AnswerView::Failure(e) => Err(
                    "failed to run '"@ + args[0] + "': "@ + e,
                ),
                _ => Err("command not found: "@ + args[0]),
            },
            t2,
        )
    }
}

/// Runs a command and captures its output.
pub fn capture(args: &[String], talk: &mut Talk) -> (r: Result<String, String>)
    ensures
        (methods::text_outcome(r), final(talk)@) == program_output(text::texts(args@), old(talk)@),
{
    if args.len() == 0 {
        return Err("empty command in process expansion".to_owned());
    }
    match talk.ask(Request::Program(copy_texts(args))) {
        Answer::Text(raw) => Ok(trim_newlines(raw.as_str())),
        Answer::Failure(e) => Err(cat4("failed to run '", args[0].as_str(), "': ", e.as_str())),
        _ => Err(cat2("command not found: ", args[0].as_str())),
    }
}

/// The output of a command never ends with a line end.
pub proof fn law_no_trailing_newline(s: Seq<char>)
    ensures
        without_newlines(s).len() > 0 ==> without_newlines(s).last() != '\n' && without_newlines(
            s,
        ).last() != '\r',
    decreases s.len(),
{
    if s.len() > 0 && (s.last() == '\n' || s.last() == '\r') {
        law_no_trailing_newline(s.drop_last());
    }
}

/// A program's output is handed on as it is but for the line ends at its end;
/// one that cannot be run, or is not found, is an error.
pub proof fn law_output_is_handed_on(args: Seq<Seq<char>>, s: Seq<char>, t: TalkView)
    requires
        args.len() > 0,
        t.pending is None,
        0 <= t.next < t.answers.len(),
        s.len() > 0 ==> s.last() != '\n' && s.last() != '\r',
    ensures
        ({
            let (r, t2) = program_output(args, t);
            let a = t.answers[t.next];
            &&& t2.made == t.made.push(dialog::RequestView::Program(args))
            &&& a == dialog::AnswerView::Text(s) || a == dialog::AnswerView::Text(s.push('\n'))
                ==> r == Ok::<Seq<char>, Seq<char>>(s)
            &&& !(a is Text) ==> r is Err
        }),
{
    assert(s.push('\n').drop_last() =~= s);
    assert(without_newlines(s) == s);
    assert(without_newlines(s.push('\n')) == without_newlines(s));
}

} // verus!
