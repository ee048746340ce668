//! The colour of the shell's own messages.

use crate::dialog;
use crate::dialog::{Answer, AnswerView, Request, RequestView, Talk, TalkView};
use vstd::prelude::*;

verus! {

/// Tells whether a stream gets colours: only a terminal, and only where the
/// user did not ask for none.
pub fn wants_color(is_tty: bool, no_color_set: bool) -> (r: bool)
    ensures
        r == (is_tty && !no_color_set),
{
    is_tty && !no_color_set
}

/// Whether stream `n` gets colours.
pub open spec fn colored(n: u8, t: TalkView) -> (bool, TalkView) {
    let (tty, t1) = dialog::asked(t, RequestView::IsTerminal(n));
    let (none, t2) = dialog::asked(t1, RequestView::Environment("NO_COLOR"@));
    (tty.as_truth() && !(none is Text), t2)
}

/// The exchange after a message was shown on stream `n`.
pub open spec fn shown(n: u8, message: Seq<char>, t: TalkView) -> TalkView {
    let (red, t1) = colored(n, t);
    dialog::asked(t1, RequestView::Show(n, message, red)).1
}

fn show(n: u8, message: &str, talk: &mut Talk)
    ensures
        final(talk)@ == shown(n, message@, old(talk)@),
{
    let tty = talk.ask(Request::IsTerminal(n)).truth();
    let none = match talk.ask(Request::Environment("NO_COLOR".to_owned())) {
        Answer::Text(_) => true,
        _ => false,
    };
    let red = wants_color(tty, none);
    let _shown = talk.ask(Request::Show(n, message.to_owned(), red));
}

/// Shows a message on the standard output.
pub fn print_err(message: &str, talk: &mut Talk)
    ensures
        final(talk)@ == shown(1, message@, old(talk)@),
{
    show(1, message, talk)
}

/// Shows a message on the standard error.
pub fn eprint_err(message: &str, talk: &mut Talk)
    ensures
        final(talk)@ == shown(2, message@, old(talk)@),
{
    show(2, message, talk)
}

/// What is piped or redirected is never coloured.
pub proof fn law_files_stay_clean(n: u8, t: TalkView)
    requires
        !dialog::asked(t, RequestView::IsTerminal(n)).0.as_truth(),
    ensures
        !colored(n, t).0,
{
}

/// A message is shown once on its stream, in colour exactly where the stream
/// is a terminal and `NO_COLOR` is not set.
pub proof fn law_terminals_get_colour(n: u8, message: Seq<char>, t: TalkView)
    requires
        t.pending is None,
        0 <= t.next,
        t.next + 3 <= t.answers.len(),
    ensures
        shown(n, message, t).made == t.made.push(RequestView::IsTerminal(n)).push(
            RequestView::Environment("NO_COLOR"@),
        ).push(
            RequestView::Show(
                n,
                message,
                t.answers[t.next].as_truth() && !(t.answers[t.next + 1] is Text),
            ),
        ),
{
}

} // verus!
