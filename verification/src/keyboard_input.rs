//! The input of the `read` builtin.
//!
//! A line is read as a whole. Hidden reads and reads of so many characters
//! take single keys from a terminal; any other input is read line by line.

use crate::dialog;
use crate::dialog::{
    Answer, AnswerView, Request, RequestView, StageCall, StageCallView, Talk, TalkView,
};
use crate::editor::{KeyCode, KeyPress};
use crate::text;
use crate::text::{chars_of, is_space, sub_chars, text_of};
use vstd::prelude::*;

verus! {

/// What to read.
#[derive(Debug, Clone, Copy, PartialEq, Eq)]
pub struct ReadRequest<'a> {
    pub prompt: &'a str,
    /// Whether what is typed is hidden.
    pub silent: bool,
    /// How many characters to read at most.
    pub count: Option<usize>,
}

/// Why nothing was read.
#[derive(Debug, Clone, PartialEq, Eq)]
pub enum ReadError {
    Interrupted,
    Failed(String),
}

/// Why nothing was read.
pub enum ReadErrorView {
    Interrupted,
    Failed(Seq<char>),
}

impl ReadErrorView {
    /// The message of a failure.
    pub open spec fn message(self) -> Seq<char> {
        match self {
            ReadErrorView::Interrupted => "input interrupted"@,
            ReadErrorView::Failed(e) => e,
        }
    }
}

impl View for ReadError {
    type V = ReadErrorView;

    open spec fn view(&self) -> ReadErrorView {
        match self {
            ReadError::Interrupted => ReadErrorView::Interrupted,
            ReadError::Failed(e) => ReadErrorView::Failed(e@),
        }
    }
}

impl ReadError {
    /// The message of the failure.
    pub fn text(&self) -> (r: String)
        ensures
            r@ == self@.message(),
    {
        match self {
            ReadError::Interrupted => "input interrupted".to_owned(),
            ReadError::Failed(e) => e.clone(),
        }
    }
}

/// What reading gives: text, nothing at the end of the input, or a failure.
pub type ReadView = Result<Option<Seq<char>>, ReadErrorView>;

/// What reading gave.
pub open spec fn read_view(r: Result<Option<String>, ReadError>) -> ReadView {
    match r {
        Ok(Some(s)) => Ok(Some(s@)),
        Ok(None) => Ok(None),
        Err(e) => Err(e@),
    }
}

/// The line without the characters that end it.
pub open spec fn without_ending(s: Seq<char>) -> Seq<char>
    decreases s.len(),
{
    if s.len() > 0 && (s.last() == '\r' || s.last() == '\n') {
        without_ending(s.drop_last())
    } else {
        s
    }
}

/// The first characters of a line, as many as are asked for.
pub open spec fn limited(s: Seq<char>, count: Option<usize>) -> Seq<char> {
    match count {
        Some(n) => if n < s.len() {
            s.take(n as int)
        } else {
            s
        },
        None => s,
    }
}

/// Reads a whole line.
pub open spec fn read_line_of(count: Option<usize>, t: TalkView) -> (ReadView, TalkView) {
    let (a, t1) = dialog::asked(t, RequestView::ReadInput);
    (
        match a {
            AnswerView::Text(line) => Ok(Some(limited(without_ending(line), count))),
            AnswerView::Failure(e) => Err(ReadErrorView::Failed(e)),
            _ => Ok(None),
        },
        t1,
    )
}

/// Cuts the end of a line and all that is not asked for.
pub fn cut_line(line: &str, count: Option<usize>) -> (r: String)
    ensures
        r@ == limited(without_ending(line@), count),
{
    let v = chars_of(line);
    let mut n: usize = v.len();
    assert(v@.take(n as int) =~= v@);
    while n > 0 && (v[n - 1] == '\r' || v[n - 1] == '\n')
        invariant
            n <= v@.len(),
            v@ == line@,
            without_ending(line@) == without_ending(v@.take(n as int)),
        decreases n,
    {
        assert(v@.take(n as int).drop_last() =~= v@.take(n - 1));
        n = n - 1;
    }
    assert(without_ending(line@) == v@.take(n as int));
    let mut end: usize = n;
    if let Some(limit) = count {
        if limit < n {
            end = limit;
        }
    }
    let front = sub_chars(&v, 0, end);
    assert(front@ =~= limited(without_ending(line@), count));
    text_of(&front)
}

fn read_buffered(count: Option<usize>, talk: &mut Talk) -> (r: Result<Option<String>, ReadError>)
    ensures
        (read_view(r), final(talk)@) == read_line_of(count, old(talk)@),
{
    match talk.ask(Request::ReadInput) {
        Answer::Text(line) => Ok(Some(cut_line(line.as_str(), count))),
        Answer::Failure(e) => Err(ReadError::Failed(e)),
        _ => Ok(None),
    }
}

/// What a key does to the text that was typed.
pub enum KeyEffect {
    /// The text is complete.
    Finish,
    Interrupt,
    /// The last character goes.
    Erase,
    /// A character is added.
    Append(char),
    Nothing,
}

/// What a key does.
pub open spec fn effect(k: KeyPress, count: Option<usize>) -> KeyEffect {
    match k.code {
        KeyCode::Enter => KeyEffect::Finish,
        KeyCode::Char(c) => if c == 'c' && k.control {
            KeyEffect::Interrupt
        } else if !k.control && !k.alt {
            KeyEffect::Append(c)
        } else {
            KeyEffect::Nothing
        },
        KeyCode::Backspace => if count is None {
            KeyEffect::Erase
        } else {
            KeyEffect::Nothing
        },
        _ => KeyEffect::Nothing,
    }
}

/// Shows what was typed, unless it is hidden.
pub open spec fn echoed(s: Seq<char>, silent: bool, t: TalkView) -> (
    Result<(), Seq<char>>,
    TalkView,
) {
    if silent {
        (Ok(()), t)
    } else {
        dialog::tried(t, RequestView::Prompt(s))
    }
}

/// What the keys that are typed give. Releases and events that are no keys
/// are passed over; an exchange whose answers have run out ends the input.
pub open spec fn typed(input: Seq<char>, silent: bool, count: Option<usize>, t: TalkView) -> (
    ReadView,
    TalkView,
)
    decreases t.answers.len() - t.next,
{
    let (a, t1) = dialog::asked(t, RequestView::ReadKey);
    match a {
        AnswerView::Failure(e) => (Err(ReadErrorView::Failed(e)), t1),
        AnswerView::Key(k) => if k.release {
            typed(input, silent, count, t1)
        } else {
            match effect(k, count) {
                KeyEffect::Finish => (Ok(Some(input)), t1),
                KeyEffect::Interrupt => (Err(ReadErrorView::Interrupted), t1),
                KeyEffect::Nothing => typed(input, silent, count, t1),
                KeyEffect::Erase => if input.len() == 0 {
                    typed(input, silent, count, t1)
                } else {
                    let (e, t2) = echoed("\u{8} \u{8}"@, silent, t1);
                    match e {
                        Err(m) => (Err(ReadErrorView::Failed(m)), t2),
                        Ok(_) => typed(input.drop_last(), silent, count, t2),
                    }
                },
                KeyEffect::Append(c) => {
                    let (e, t2) = echoed(seq![c], silent, t1);
                    match e {
                        Err(m) => (Err(ReadErrorView::Failed(m)), t2),
                        Ok(_) => if count is Some && input.len() + 1 >= count->0 {
                            (Ok(Some(input.push(c))), t2)
                        } else {
                            typed(input.push(c), silent, count, t2)
                        },
                    }
                },
            }
        },
        _ => if t1.pending is Some {
            (Ok(None), t1)
        } else {
            typed(input, silent, count, t1)
        },
    }
}

/// An event that is no key changes nothing of what was typed and does not end
/// it.
pub proof fn law_other_events_are_passed_over(
    input: Seq<char>,
    silent: bool,
    count: Option<usize>,
    t: TalkView,
)
    requires
        ({
            let (a, t1) = dialog::asked(t, RequestView::ReadKey);
            &&& t1.pending is None
            &&& !(a is Key)
            &&& !(a is Failure)
        }),
    ensures
        typed(input, silent, count, t) == typed(
            input,
            silent,
            count,
            dialog::asked(t, RequestView::ReadKey).1,
        ),
{
}

/// Reads single keys of a terminal.
pub open spec fn read_keys(silent: bool, count: Option<usize>, t: TalkView) -> (
    ReadView,
    TalkView,
) {
    let (on, t1) = dialog::tried(t, RequestView::RawMode(true));
    match on {
        Err(e) => (Err(ReadErrorView::Failed(e)), t1),
        Ok(_) => {
            let (r, t2) = typed(Seq::empty(), silent, count, t1);
            let (off, t3) = dialog::tried(t2, RequestView::RawMode(false));
            let t4 = if r matches Err(ReadErrorView::Interrupted) {
                dialog::told(t3, StageCallView::Print("^C\r\n"@))
            } else if count is None {
                dialog::told(t3, StageCallView::Print("\r\n"@))
            } else {
                t3
            };
            (
                match off {
                    Err(e) => Err(ReadErrorView::Failed(e)),
                    Ok(_) => r,
                },
                t4,
            )
        },
    }
}

/// What `read` reads: a line, or at most so many characters.
pub open spec fn input_read(
    prompt: Seq<char>,
    silent: bool,
    count: Option<usize>,
    t: TalkView,
) -> (ReadView, TalkView) {
    let (p, t1) = dialog::tried(t, RequestView::Prompt(prompt));
    match p {
        Err(e) => (Err(ReadErrorView::Failed(e)), t1),
        Ok(_) => {
            let (tty, t2) = dialog::asked(t1, RequestView::IsTerminal(0));
            if tty.as_truth() && (silent || count is Some) {
                read_keys(silent, count, t2)
            } else {
                read_line_of(count, t2)
            }
        },
    }
}

fn echo(s: &str, silent: bool, talk: &mut Talk) -> (r: Result<(), String>)
    ensures
        (dialog::outcome(r), final(talk)@) == echoed(s@, silent, old(talk)@),
{
    if silent {
        Ok(())
    } else {
        talk.attempt(Request::Prompt(s.to_owned()))
    }
}

#[verifier::rlimit(30)]
fn read_raw_events(silent: bool, count: Option<usize>, talk: &mut Talk) -> (r: Result<
    Option<String>,
    ReadError,
>)
    ensures
        (read_view(r), final(talk)@) == typed(Seq::empty(), silent, count, old(talk)@),
{
    let mut input: Vec<char> = Vec::new();
    loop
        invariant
            typed(Seq::empty(), silent, count, old(talk)@) == typed(
                input@,
                silent,
                count,
                talk@,
            ),
        decreases talk@.answers.len() - talk@.next,
    {
        match talk.ask(Request::ReadKey) {
            Answer::Failure(e) => {
                return Err(ReadError::Failed(e));
            },
            Answer::Key(k) => {
                if !k.release {
                    match k.code {
                        KeyCode::Enter => {
                            return Ok(Some(text_of(&input)));
                        },
                        KeyCode::Backspace => {
                            if count.is_none() && input.len() > 0 {
                                match echo("\u{8} \u{8}", silent, talk) {
                                    Err(e) => {
                                        return Err(ReadError::Failed(e));
                                    },
                                    Ok(_) => {},
                                }
                                let _last = input.pop();
                            }
                        },
                        KeyCode::Char(c) => {
                            if c == 'c' && k.control {
                                return Err(ReadError::Interrupted);
                            }
                            if !k.control && !k.alt {
                                let mut one: Vec<char> = Vec::new();
                                one.push(c);
                                assert(one@ =~= seq![c]);
                                let shown = text_of(&one);
                                match echo(shown.as_str(), silent, talk) {
                                    Err(e) => {
                                        return Err(ReadError::Failed(e));
                                    },
                                    Ok(_) => {},
                                }
                                input.push(c);
                                if let Some(limit) = count {
                                    if input.len() >= limit {
                                        return Ok(Some(text_of(&input)));
                                    }
                                }
                            }
                        },
                        _ => {},
                    }
                }
            },
            _ => if talk.pending.is_some() {
                return Ok(None);
            },
        }
    }
}

fn read_raw(silent: bool, count: Option<usize>, talk: &mut Talk) -> (r: Result<
    Option<String>,
    ReadError,
>)
    ensures
        (read_view(r), final(talk)@) == read_keys(silent, count, old(talk)@),
{
    match talk.attempt(Request::RawMode(true)) {
        Err(e) => {
            return Err(ReadError::Failed(e));
        },
        Ok(_) => {},
    }
    let r = read_raw_events(silent, count, talk);
    let off = talk.attempt(Request::RawMode(false));
    let interrupted = match &r {
        Err(ReadError::Interrupted) => true,
        _ => false,
    };
    if interrupted {
        talk.tell(StageCall::Print("^C\r\n".to_owned()));
    } else if count.is_none() {
        talk.tell(StageCall::Print("\r\n".to_owned()));
    }
    match off {
        Err(e) => Err(ReadError::Failed(e)),
        Ok(_) => r,
    }
}

/// Shows the prompt and reads a line, or at most so many characters; nothing
/// at the end of the input.
pub fn read(request: ReadRequest<'_>, talk: &mut Talk) -> (r: Result<Option<String>, ReadError>)
    ensures
        (read_view(r), final(talk)@) == input_read(
            request.prompt@,
            request.silent,
            request.count,
            old(talk)@,
        ),
{
    match talk.attempt(Request::Prompt(request.prompt.to_owned())) {
        Err(e) => {
            return Err(ReadError::Failed(e));
        },
        Ok(_) => {},
    }
    let tty = talk.ask(Request::IsTerminal(0)).truth();
    if tty && (request.silent || request.count.is_some()) {
        read_raw(request.silent, request.count, talk)
    } else {
        read_buffered(request.count, talk)
    }
}

// ---------------------------------------------------------------------------
// Fields
// ---------------------------------------------------------------------------

/// The place of the first white space from `i` on; the length where there is
/// none.
pub open spec fn space_from(s: Seq<char>, i: int) -> int
    decreases s.len() - i,
{
    if i < 0 || i >= s.len() || text::is_space_char(s[i]) {
        i
    } else {
        space_from(s, i + 1)
    }
}

/// The text from `i` on split at white space into at most `n` parts; the last
/// one holds all that is left.
pub open spec fn fields_from(s: Seq<char>, i: int, n: nat) -> Seq<Seq<char>>
    decreases n,
{
    if n == 0 {
        Seq::empty()
    } else {
        let end = space_from(s, i);
        if n == 1 || end >= s.len() {
            seq![s.skip(i)]
        } else {
            seq![s.subrange(i, end)] + fields_from(s, end + 1, (n - 1) as nat)
        }
    }
}

/// The parts of a line for so many variables.
pub open spec fn fields(s: Seq<char>, n: nat) -> Seq<Seq<char>> {
    fields_from(s, 0, n)
}

fn find_space(v: &[char], from: usize) -> (r: usize)
    requires
        from <= v@.len(),
    ensures
        r == space_from(v@, from as int),
        from <= r <= v@.len(),
{
    let mut i: usize = from;
    while i < v.len() && !is_space(v[i])
        invariant
            from <= i <= v@.len(),
            space_from(v@, from as int) == space_from(v@, i as int),
        decreases v@.len() - i,
    {
        i = i + 1;
    }
    i
}

/// Splits a line for so many variables; the last one gets all that is left.
pub fn split_fields(line: &str, variable_count: usize) -> (r: Vec<String>)
    ensures
        text::texts(r@) == fields(line@, variable_count as nat),
{
    let v = chars_of(line);
    let mut out: Vec<String> = Vec::new();
    assert(text::texts(out@) =~= Seq::<Seq<char>>::empty());
    assert(text::texts(out@) + fields(line@, variable_count as nat) =~= fields(
        line@,
        variable_count as nat,
    ));
    let mut left: usize = variable_count;
    let mut i: usize = 0;
    while left > 0
        invariant
            i <= v@.len(),
            v@ == line@,
            fields(line@, variable_count as nat) == text::texts(out@) + fields_from(
                line@,
                i as int,
                left as nat,
            ),
        decreases left,
    {
        let end = find_space(&v, i);
        let ghost before = out@;
        if left == 1 || end >= v.len() {
            let tail = sub_chars(&v, i, v.len());
            assert(tail@ =~= line@.skip(i as int));
            let item = text_of(&tail);
            proof {
                text::lemma_texts_push(out@, item);
            }
            out.push(item);
            assert(text::texts(out@) =~= text::texts(before) + seq![line@.skip(i as int)]);
            return out;
        }
        let part = sub_chars(&v, i, end);
        let item = text_of(&part);
        proof {
            text::lemma_texts_push(out@, item);
        }
        out.push(item);
        proof {
            let rest = fields_from(line@, end + 1, (left - 1) as nat);
            assert(text::texts(before) + (seq![item@] + rest) =~= text::texts(out@) + rest);
        }
        i = end + 1;
        left = left - 1;
    }
    assert(text::texts(out@) + Seq::<Seq<char>>::empty() =~= text::texts(out@));
    out
}

proof fn lemma_fields_count(s: Seq<char>, i: int, n: nat)
    ensures
        fields_from(s, i, n).len() <= n,
        n > 0 ==> fields_from(s, i, n).len() > 0,
    decreases n,
{
    if n > 1 {
        lemma_fields_count(s, space_from(s, i) + 1, (n - 1) as nat);
    }
}

/// There are never more fields than variables.
pub proof fn law_fields_fit_the_variables(s: Seq<char>, n: nat)
    ensures
        fields(s, n).len() <= n,
{
    lemma_fields_count(s, 0, n);
}

/// One variable receives the complete line.
pub proof fn law_one_variable_gets_the_line(s: Seq<char>)
    ensures
        fields(s, 1) == seq![s],
{
    assert(s.skip(0) =~= s);
}

/// No more characters than were asked for are handed on.
pub proof fn law_no_more_than_asked(s: Seq<char>, n: usize)
    ensures
        limited(s, Some(n)).len() <= n,
        limited(s, Some(n)) == s.take(limited(s, Some(n)).len() as int),
{
    assert(s.take(s.len() as int) =~= s);
}

/// A line that is read loses the characters that end it and nothing else.
pub proof fn law_line_ends_are_cut(s: Seq<char>)
    requires
        s.len() > 0 ==> s.last() != '\r' && s.last() != '\n',
    ensures
        without_ending(s) == s,
        without_ending(s.push('\n')) == s,
        without_ending(s.push('\r').push('\n')) == s,
{
    let a = s.push('\n');
    assert(a.drop_last() =~= s);
    let b = s.push('\r').push('\n');
    assert(b.drop_last() =~= s.push('\r'));
    assert(s.push('\r').drop_last() =~= s);
    assert(without_ending(s) == s);
    assert(without_ending(s.push('\r')) == s);
    assert(without_ending(b) == without_ending(b.drop_last()));
}

/// Every character that is typed is one more character of the input, shown
/// unless it is hidden; Enter ends it, control with `c` interrupts it, and a
/// backspace takes the last character, where no number of characters was
/// asked for.
pub proof fn law_keys_make_the_input(
    input: Seq<char>,
    c: char,
    silent: bool,
    t: TalkView,
)
    requires
        t.pending is None,
        0 <= t.next,
        t.next + 2 <= t.answers.len(),
        t.answers[t.next] matches AnswerView::Key(k) && !k.release && !(t.answers[t.next + 1]
            is Failure),
    ensures
        ({
            let k = t.answers[t.next]->Key_0;
            let (r, t2) = typed(input, silent, None, t);
            let asked = t.made.push(RequestView::ReadKey);
            let after = |s: Seq<char>|
                TalkView {
                    next: if silent {
                        t.next + 1
                    } else {
                        t.next + 2
                    },
                    made: if silent {
                        asked
                    } else {
                        asked.push(RequestView::Prompt(s))
                    },
                    ..t
                };
            &&& k.code is Enter ==> r == Ok::<Option<Seq<char>>, ReadErrorView>(Some(input))
                && t2.made == asked
            &&& k.code == KeyCode::Char('c') && k.control ==> r == Err::<
                Option<Seq<char>>,
                ReadErrorView,
            >(ReadErrorView::Interrupted)
            &&& k.code == KeyCode::Char(c) && !k.control && !k.alt ==> (r, t2) == typed(
                input.push(c),
                silent,
                None,
                after(seq![c]),
            )
            &&& k.code is Backspace && input.len() > 0 ==> (r, t2) == typed(
                input.drop_last(),
                silent,
                None,
                after("\u{8} \u{8}"@),
            )
        }),
{
}

/// A line for several variables is cut at white space, one part for each, and
/// the last variable gets all that is left.
pub proof fn law_line_is_cut_for_its_variables(s: Seq<char>, k: int, n: nat)
    requires
        0 <= k < s.len(),
        text::is_space_char(s[k]),
        forall|i: int| 0 <= i < k ==> !text::is_space_char(#[trigger] s[i]),
        n > 1,
    ensures
        fields(s, n) == seq![s.take(k)] + fields_from(s, k + 1, (n - 1) as nat),
        fields_from(s, k + 1, 1) == seq![s.skip(k + 1)],
{
    lemma_space_from(s, 0, k);
    assert(s.subrange(0, k) =~= s.take(k));
}

proof fn lemma_space_from(s: Seq<char>, i: int, k: int)
    requires
        0 <= i <= k < s.len(),
        text::is_space_char(s[k]),
        forall|j: int| 0 <= j < k ==> !text::is_space_char(#[trigger] s[j]),
    ensures
        space_from(s, i) == k,
    decreases k - i,
{
    if i < k {
        assert(!text::is_space_char(s[i]));
        lemma_space_from(s, i + 1, k);
    }
}

/// Keys are read one by one only at a terminal, and only to hide them or to
/// count them; otherwise a whole line is read, which loses its end and what is
/// more than was asked for.
pub proof fn law_lines_are_read_unless_keys_are_wanted(
    prompt: Seq<char>,
    silent: bool,
    count: Option<usize>,
    line: Seq<char>,
    t: TalkView,
)
    requires
        t.pending is None,
        0 <= t.next,
        t.next + 3 <= t.answers.len(),
        !(t.answers[t.next] is Failure),
        t.answers[t.next + 1] is Truth,
        t.answers[t.next + 2] == AnswerView::Text(line),
        t.answers[t.next + 1] == AnswerView::Truth(false) || (!silent && count is None),
    ensures
        ({
            let (r, t1) = input_read(prompt, silent, count, t);
            &&& t1.made == t.made.push(RequestView::Prompt(prompt)).push(
                RequestView::IsTerminal(0),
            ).push(RequestView::ReadInput)
            &&& r matches Ok(Some(s)) && (count is None ==> s == without_ending(line)) && (
            count is Some ==> s.len() <= count->0)
        }),
{
}

/// Where keys are read, the terminal's raw mode is switched on before and off
/// again behind them, however the reading ends.
pub proof fn law_raw_mode_is_left_again(silent: bool, count: Option<usize>, t: TalkView)
    requires
        t.pending is None,
        0 <= t.next < t.answers.len(),
        !(t.answers[t.next] is Failure),
    ensures
        ({
            let t1 = read_keys(silent, count, t).1;
            let typing = typed(
                Seq::empty(),
                silent,
                count,
                dialog::asked(t, RequestView::RawMode(true)).1,
            ).1;
            &&& dialog::asked(t, RequestView::RawMode(true)).1.made == t.made.push(
                RequestView::RawMode(true),
            )
            &&& t1.pending is None ==> t1.made.len() > typing.made.len()
                && t1.made[typing.made.len() as int] == RequestView::RawMode(false)
        }),
{
}

} // verus!
