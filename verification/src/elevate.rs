//! The `elevate` command: launches one program with the rights of an
//! administrator.

use crate::dialog;
use crate::dialog::{Answer, AnswerView, Request, RequestView, Talk, TalkView};
use crate::fileset;
use crate::text;
use crate::text::{
    cat2, cat3, chars_of, extend_chars, is_space, join_texts, same, tail_texts, text_of,
};
use vstd::prelude::*;

verus! {

// ---------------------------------------------------------------------------
// Options
// ---------------------------------------------------------------------------

/// What to launch, and how.
#[derive(Debug, Clone, PartialEq, Eq)]
pub struct Options {
    pub wait: bool,
    pub cwd: Option<String>,
    pub program: String,
    pub arguments: Vec<String>,
}

/// What to launch, and how.
#[verifier::ext_equal]
pub struct OptionsView {
    pub wait: bool,
    pub cwd: Option<Seq<char>>,
    pub program: Seq<char>,
    pub arguments: Seq<Seq<char>>,
}

impl View for Options {
    type V = OptionsView;

    open spec fn view(&self) -> OptionsView {
        OptionsView {
            wait: self.wait,
            cwd: fileset::opt_text(self.cwd),
            program: self.program@,
            arguments: text::texts(self.arguments@),
        }
    }
}

/// How `elevate` is used.
pub open spec fn usage() -> Seq<char> {
    "usage: elevate [--wait] [--cwd DIRECTORY] PROGRAM [ARGS...]"@
}

fn usage_text() -> (r: String)
    ensures
        r@ == usage(),
{
    "usage: elevate [--wait] [--cwd DIRECTORY] PROGRAM [ARGS...]".to_owned()
}

/// What the program at `i` and its arguments are, or a message.
pub open spec fn program_at(args: Seq<Seq<char>>, i: int, wait: bool, cwd: Option<Seq<char>>) -> Result<
    OptionsView,
    Seq<char>,
> {
    if 0 <= i < args.len() {
        Ok(OptionsView { wait, cwd, program: args[i], arguments: args.skip(i + 1) })
    } else {
        Err("missing program\n"@ + usage())
    }
}

/// What the arguments from `i` on ask for, or a message. Options stand only
/// before the program.
pub open spec fn options_from(
    args: Seq<Seq<char>>,
    i: int,
    wait: bool,
    cwd: Option<Seq<char>>,
) -> Result<OptionsView, Seq<char>>
    decreases args.len() - i,
{
    if i < 0 || i >= args.len() {
        program_at(args, i, wait, cwd)
    } else if args[i] == "--wait"@ {
        options_from(args, i + 1, true, cwd)
    } else if args[i] == "--cwd"@ {
        if i + 1 < args.len() {
            options_from(args, i + 2, wait, Some(args[i + 1]))
        } else {
            Err("--cwd requires a directory\n"@ + usage())
        }
    } else if args[i] == "--"@ {
        program_at(args, i + 1, wait, cwd)
    } else if args[i] == "--help"@ || args[i] == "-h"@ {
        Err(usage())
    } else if args[i].len() > 0 && args[i][0] == '-' {
        Err("unknown option '"@ + args[i] + "'\n"@ + usage())
    } else {
        program_at(args, i, wait, cwd)
    }
}

/// What parsing gave.
pub open spec fn parse_view(r: Result<Options, String>) -> Result<OptionsView, Seq<char>> {
    match r {
        Ok(o) => Ok(o@),
        Err(e) => Err(e@),
    }
}

fn take_program(args: &[String], i: usize, wait: bool, cwd: Option<String>) -> (r: Result<
    Options,
    String,
>)
    requires
        i <= args@.len(),
    ensures
        parse_view(r) == program_at(text::texts(args@), i as int, wait, fileset::opt_text(cwd)),
{
    let ghost all = text::texts(args@);
    if i < args.len() {
        assert(all[i as int] == args@[i as int]@);
        let arguments = tail_texts(args, i + 1);
        Ok(Options { wait, cwd, program: args[i].clone(), arguments })
    } else {
        let help = usage_text();
        Err(cat2("missing program\n", help.as_str()))
    }
}

/// Reads the arguments of `elevate`.
pub fn parse_options(args: &[String]) -> (r: Result<Options, String>)
    ensures
        parse_view(r) == options_from(text::texts(args@), 0, false, None),
{
    let ghost all = text::texts(args@);
    let help = usage_text();
    let mut wait = false;
    let mut cwd: Option<String> = None;
    let mut i: usize = 0;
    while i < args.len()
        invariant
            i <= args@.len(),
            all == text::texts(args@),
            help@ == usage(),
            options_from(all, 0, false, None) == options_from(
                all,
                i as int,
                wait,
                fileset::opt_text(cwd),
            ),
        decreases args@.len() - i,
    {
        assert(all[i as int] == args@[i as int]@);
        let arg = args[i].as_str();
        if same(arg, "--wait") {
            wait = true;
            i = i + 1;
        } else if same(arg, "--cwd") {
            if args.len() - i < 2 {
                return Err(cat2("--cwd requires a directory\n", help.as_str()));
            }
            assert(i + 1 < args.len());
            assert(all[i + 1] == args@[i + 1]@);
            cwd = Some(args[i + 1].clone());
            i = i + 2;
        } else if same(arg, "--") {
            return take_program(args, i + 1, wait, cwd);
        } else if same(arg, "--help") || same(arg, "-h") {
            return Err(help);
        } else if arg.unicode_len() > 0 && arg.get_char(0) == '-' {
            let start = cat3("unknown option '", arg, "'\n");
            return Err(cat2(start.as_str(), help.as_str()));
        } else {
            return take_program(args, i, wait, cwd);
        }
    }
    take_program(args, i, wait, cwd)
}

/// Behind `--` stands the program, and what follows is handed to it, whatever
/// it looks like.
pub proof fn law_arguments_are_kept(
    args: Seq<Seq<char>>,
    i: int,
    wait: bool,
    cwd: Option<Seq<char>>,
)
    requires
        0 <= i,
        i + 1 < args.len(),
        args[i] == "--"@,
    ensures
        options_from(args, i, wait, cwd) == Ok::<OptionsView, Seq<char>>(
            OptionsView { wait, cwd, program: args[i + 1], arguments: args.skip(i + 2) },
        ),
{
    reveal_strlit("--");
    reveal_strlit("--wait");
    reveal_strlit("--cwd");
    assert("--"@.len() == 2 && "--wait"@.len() == 6 && "--cwd"@.len() == 5);
}

// ---------------------------------------------------------------------------
// Quoting
// ---------------------------------------------------------------------------

/// A number of backslashes.
pub open spec fn slashes(n: nat) -> Seq<char> {
    Seq::new(n, |i: int| '\\')
}

/// Whether an argument needs no quotes.
pub open spec fn plain(s: Seq<char>) -> bool {
    s.len() > 0 && forall|i: int|
        0 <= i < s.len() ==> !text::is_space_char(#[trigger] s[i]) && s[i] != '"'
}

/// What is written for the first characters of a quoted argument, and how
/// many backslashes are not written yet.
pub open spec fn quoted_part(s: Seq<char>) -> (Seq<char>, nat)
    decreases s.len(),
{
    if s.len() == 0 {
        (seq!['"'], 0)
    } else {
        let (o, k) = quoted_part(s.drop_last());
        if s.last() == '\\' {
            (o, k + 1)
        } else if s.last() == '"' {
            ((o + slashes(2 * k + 1)).push('"'), 0)
        } else {
            ((o + slashes(k)).push(s.last()), 0)
        }
    }
}

/// An argument as it is written in a command line: backslashes before a quote
/// are doubled.
pub open spec fn quoted(s: Seq<char>) -> Seq<char> {
    if plain(s) {
        s
    } else {
        let (o, k) = quoted_part(s);
        (o + slashes(2 * k)).push('"')
    }
}

fn push_slashes(out: &mut Vec<char>, n: usize)
    ensures
        final(out)@ == old(out)@ + slashes(n as nat),
{
    let ghost before = out@;
    let mut i: usize = 0;
    assert(out@ =~= before + slashes(0));
    while i < n
        invariant
            i <= n,
            out@ == before + slashes(i as nat),
        decreases n - i,
    {
        out.push('\\');
        i = i + 1;
        assert(out@ =~= before + slashes(i as nat));
    }
}

/// Writes an argument as a command line needs it.
pub fn quote_argument(argument: &str) -> (r: String)
    ensures
        r@ == quoted(argument@),
{
    let v = chars_of(argument);
    let mut is_plain = v.len() > 0;
    let mut i: usize = 0;
    while i < v.len()
        invariant
            i <= v@.len(),
            is_plain == (v@.len() > 0 && forall|j: int|
                0 <= j < i ==> !text::is_space_char(#[trigger] v@[j]) && v@[j] != '"'),
        decreases v@.len() - i,
    {
        if is_space(v[i]) || v[i] == '"' {
            assert(text::is_space_char(v@[i as int]) || v@[i as int] == '"');
            is_plain = false;
        }
        i = i + 1;
    }
    if is_plain {
        return argument.to_owned();
    }
    let mut out: Vec<char> = Vec::new();
    out.push('"');
    let mut k: usize = 0;
    let mut i: usize = 0;
    assert(v@.take(0) =~= Seq::<char>::empty());
    assert(out@ =~= seq!['"']);
    while i < v.len()
        invariant
            i <= v@.len(),
            k <= i,
            quoted_part(v@.take(i as int)) == (out@, k as nat),
        decreases v@.len() - i,
    {
        let c = v[i];
        let ghost before = out@;
        let ghost k0 = k as nat;
        assert(v@.take(i + 1).drop_last() =~= v@.take(i as int));
        assert(v@.take(i + 1).last() == c);
        assert(i < v.len());
        if c == '\\' {
            k = k + 1;
        } else if c == '"' {
            push_slashes(&mut out, k);
            push_slashes(&mut out, k);
            out.push('\\');
            out.push('"');
            k = 0;
            assert(out@ =~= (before + slashes(2 * k0 + 1)).push('"'));
        } else {
            push_slashes(&mut out, k);
            out.push(c);
            k = 0;
        }
        i = i + 1;
    }
    assert(v@.take(v@.len() as int) =~= v@);
    let ghost before = out@;
    push_slashes(&mut out, k);
    push_slashes(&mut out, k);
    out.push('"');
    assert(out@ =~= (before + slashes(2 * (k as nat))).push('"'));
    text_of(&out)
}

/// Every text of a list, quoted.
pub open spec fn all_quoted(list: Seq<Seq<char>>) -> Seq<Seq<char>> {
    Seq::new(list.len(), |i: int| quoted(list[i]))
}

/// The command line of some arguments.
pub open spec fn command_line(arguments: Seq<Seq<char>>) -> Seq<char> {
    text::joined(all_quoted(arguments), " "@)
}

/// Writes a command line.
pub fn parameter_string(arguments: &[String]) -> (r: String)
    ensures
        r@ == command_line(text::texts(arguments@)),
{
    let ghost all = text::texts(arguments@);
    let mut out: Vec<String> = Vec::new();
    assert(text::texts(out@) =~= all_quoted(all).take(0));
    let mut i: usize = 0;
    while i < arguments.len()
        invariant
            i <= arguments@.len(),
            all == text::texts(arguments@),
            text::texts(out@) == all_quoted(all).take(i as int),
        decreases arguments@.len() - i,
    {
        let item = quote_argument(arguments[i].as_str());
        proof {
            text::lemma_texts_push(out@, item);
            assert(all[i as int] == arguments@[i as int]@);
            assert(all_quoted(all).take(i + 1) =~= all_quoted(all).take(i as int).push(item@));
        }
        out.push(item);
        i = i + 1;
    }
    assert(all_quoted(all).take(all.len() as int) =~= all_quoted(all));
    join_texts(&out, " ")
}

/// How far a program has read its command line.
#[verifier::ext_equal]
pub struct Reading {
    pub in_quotes: bool,
    /// Backslashes whose meaning is not known yet.
    pub open: nat,
    /// The argument so far.
    pub current: Seq<char>,
    /// Whether there is an argument.
    pub begun: bool,
    /// The arguments that are complete.
    pub done: Seq<Seq<char>>,
}

/// Before anything was read.
pub open spec fn unread() -> Reading {
    Reading {
        in_quotes: false,
        open: 0,
        current: Seq::empty(),
        begun: false,
        done: Seq::empty(),
    }
}

/// The arguments that are complete when the command line ends here.
pub open spec fn ended(r: Reading) -> Reading {
    if r.begun {
        Reading { done: r.done.push(r.current + slashes(r.open)), ..unread() }
    } else {
        Reading { done: r.done, ..unread() }
    }
}

/// What one more character means to a program that splits its command line
/// by the rules of Windows: blanks outside quotes separate, and backslashes
/// before a quote stand for half as many, an odd one for the quote itself.
pub open spec fn read_one(r: Reading, c: char) -> Reading {
    if c == '\\' {
        Reading { open: r.open + 1, begun: true, ..r }
    } else if c == '"' {
        let kept = r.current + slashes(r.open / 2);
        if r.open % 2 == 1 {
            Reading { open: 0, current: kept.push('"'), begun: true, ..r }
        } else {
            Reading { open: 0, current: kept, in_quotes: !r.in_quotes, begun: true, ..r }
        }
    } else if (c == ' ' || c == '\t') && !r.in_quotes {
        ended(r)
    } else {
        Reading { open: 0, current: (r.current + slashes(r.open)).push(c), begun: true, ..r }
    }
}

/// What a program reads from the characters of a command line.
pub open spec fn read_all(r: Reading, s: Seq<char>) -> Reading
    decreases s.len(),
{
    if s.len() == 0 {
        r
    } else {
        read_one(read_all(r, s.drop_last()), s.last())
    }
}

/// The arguments that a program finds in its command line.
pub open spec fn arguments_of(s: Seq<char>) -> Seq<Seq<char>> {
    ended(read_all(unread(), s)).done
}

proof fn lemma_read_on(r: Reading, a: Seq<char>, b: Seq<char>)
    ensures
        read_all(r, a + b) == read_all(read_all(r, a), b),
    decreases b.len(),
{
    if b.len() == 0 {
        assert(a + b =~= a);
    } else {
        assert((a + b).drop_last() =~= a + b.drop_last());
        assert((a + b).last() == b.last());
        lemma_read_on(r, a, b.drop_last());
    }
}

proof fn lemma_read_one(r: Reading, c: char)
    ensures
        read_all(r, seq![c]) == read_one(r, c),
{
    reveal_with_fuel(read_all, 2);
    assert(seq![c].drop_last() =~= Seq::<char>::empty());
    assert(seq![c].last() == c);
}

proof fn lemma_read_slashes(r: Reading, n: nat)
    ensures
        read_all(r, slashes(n)) == (Reading {
            open: r.open + n,
            begun: r.begun || n > 0,
            ..r
        }),
    decreases n,
{
    if n > 0 {
        assert(slashes(n).drop_last() =~= slashes((n - 1) as nat));
        assert(slashes(n).last() == '\\');
        lemma_read_slashes(r, (n - 1) as nat);
    } else {
        assert(read_all(r, slashes(0)) =~= r);
    }
}

/// A plain argument is read as it stands.
proof fn lemma_read_plain(r: Reading, s: Seq<char>)
    requires
        !r.in_quotes,
        !r.begun,
        r.open == 0,
        r.current.len() == 0,
        forall|i: int| 0 <= i < s.len() ==> !text::is_space_char(#[trigger] s[i]) && s[i] != '"',
    ensures
        ({
            let e = read_all(r, s);
            e.current + slashes(e.open) == s && e.begun == (s.len() > 0) && !e.in_quotes && e.done
                == r.done
        }),
    decreases s.len(),
{
    if s.len() == 0 {
        assert(r.current + slashes(0) =~= s);
    } else {
        let front = s.drop_last();
        assert forall|i: int| 0 <= i < front.len() implies !text::is_space_char(#[trigger] front[i])
            && front[i] != '"' by {
            assert(front[i] == s[i]);
        }
        lemma_read_plain(r, front);
        let e = read_all(r, front);
        let c = s.last();
        assert(!text::is_space_char(s[s.len() - 1]));
        assert(s =~= front.push(c));
        let e2 = read_one(e, c);
        if c == '\\' {
            assert(e2.current + slashes(e2.open) =~= (e.current + slashes(e.open)).push(c));
        } else {
            assert(e2.current + slashes(e2.open) =~= (e.current + slashes(e.open)).push(c));
        }
    }
}

/// The first characters of a quoted argument are read as what they stand for.
proof fn lemma_read_quoted(r: Reading, s: Seq<char>)
    requires
        !r.in_quotes,
        !r.begun,
        r.open == 0,
        r.current.len() == 0,
    ensures
        ({
            let (o, k) = quoted_part(s);
            let e = read_all(r, o);
            e.current + slashes(k) == s && e.begun && e.in_quotes && e.open == 0 && e.done == r.done
        }),
    decreases s.len(),
{
    if s.len() == 0 {
        lemma_read_one(r, '"');
        assert(r.current + slashes(0) + slashes(0) =~= s);
        assert(read_one(r, '"').current =~= s);
    } else {
        lemma_read_quoted(r, s.drop_last());
        let (o, k) = quoted_part(s.drop_last());
        let e = read_all(r, o);
        let c = s.last();
        assert(s =~= s.drop_last().push(c));
        if c == '\\' {
            assert(e.current + slashes(k + 1) =~= (e.current + slashes(k)).push(c));
        } else if c == '"' {
            let n = 2 * k + 1;
            lemma_read_slashes(e, n);
            lemma_read_on(r, o, slashes(n));
            lemma_read_on(r, o + slashes(n), seq!['"']);
            lemma_read_one(read_all(r, o + slashes(n)), '"');
            assert((o + slashes(n)).push('"') =~= o + slashes(n) + seq!['"']);
            assert(n / 2 == k && n % 2 == 1);
            assert((e.current + slashes(k)).push('"') + slashes(0) =~= s);
        } else {
            lemma_read_slashes(e, k);
            lemma_read_on(r, o, slashes(k));
            lemma_read_on(r, o + slashes(k), seq![c]);
            lemma_read_one(read_all(r, o + slashes(k)), c);
            assert((o + slashes(k)).push(c) =~= o + slashes(k) + seq![c]);
            assert((e.current + slashes(k)).push(c) + slashes(0) =~= s);
        }
    }
}

/// However an argument is written, it is read as what it is.
proof fn lemma_read_argument(r: Reading, s: Seq<char>)
    requires
        !r.in_quotes,
        !r.begun,
        r.open == 0,
        r.current.len() == 0,
    ensures
        ({
            let e = read_all(r, quoted(s));
            e.current + slashes(e.open) == s && e.begun && !e.in_quotes && e.done == r.done
        }),
{
    if plain(s) {
        lemma_read_plain(r, s);
    } else {
        lemma_read_quoted(r, s);
        let (o, k) = quoted_part(s);
        let e = read_all(r, o);
        lemma_read_slashes(e, 2 * k);
        lemma_read_on(r, o, slashes(2 * k));
        lemma_read_on(r, o + slashes(2 * k), seq!['"']);
        lemma_read_one(read_all(r, o + slashes(2 * k)), '"');
        assert((o + slashes(2 * k)).push('"') =~= o + slashes(2 * k) + seq!['"']);
        assert((2 * k) / 2 == k && (2 * k) % 2 == 0);
        assert(e.current + slashes(k) + slashes(0) =~= s);
    }
}

proof fn lemma_read_line(arguments: Seq<Seq<char>>)
    ensures
        ({
            let e = read_all(unread(), command_line(arguments));
            ended(e).done == arguments && !e.in_quotes && (e.begun <==> arguments.len() > 0)
        }),
    decreases arguments.len(),
{
    let n = arguments.len();
    let list = all_quoted(arguments);
    reveal_strlit(" ");
    if n == 0 {
        assert(command_line(arguments) =~= Seq::<char>::empty());
        assert(ended(unread()).done =~= arguments);
    } else if n == 1 {
        assert(list[0] == quoted(arguments[0]));
        lemma_read_argument(unread(), arguments[0]);
        assert(Seq::<Seq<char>>::empty().push(arguments[0]) =~= arguments);
    } else {
        let front = arguments.drop_last();
        let s = arguments.last();
        lemma_read_line(front);
        assert(all_quoted(front) =~= list.drop_last());
        let line = command_line(front);
        let e = read_all(unread(), line);
        lemma_read_on(unread(), line, " "@);
        assert(" "@ =~= seq![' ']);
        lemma_read_one(e, ' ');
        let r = read_all(unread(), line + " "@);
        lemma_read_argument(r, s);
        lemma_read_on(unread(), line + " "@, quoted(s));
        assert(list.last() == quoted(s));
        assert(front.push(s) =~= arguments);
    }
}

/// A program finds in its command line the arguments that it was given:
/// quoting changes neither what they are nor where they end.
pub proof fn law_arguments_arrive(arguments: Seq<Seq<char>>)
    ensures
        arguments_of(command_line(arguments)) == arguments,
{
    lemma_read_line(arguments);
}

// ---------------------------------------------------------------------------
// Launching
// ---------------------------------------------------------------------------

/// What came of a launch.
#[derive(Debug, Clone, Copy, PartialEq, Eq, Structural)]
pub enum Outcome {
    Launched,
    Exited(u32),
}

impl Outcome {
    /// Whether the launch succeeded.
    pub open spec fn good(self) -> bool {
        self == Outcome::Launched || self == Outcome::Exited(0)
    }

    /// Tells whether the launch succeeded.
    pub fn success(self) -> (r: bool)
        ensures
            r == self.good(),
    {
        match self {
            Outcome::Launched => true,
            Outcome::Exited(code) => code == 0,
        }
    }
}

/// What an outcome or a message is.
pub open spec fn outcome_view(r: Result<Outcome, String>) -> Result<Outcome, Seq<char>> {
    match r {
        Ok(o) => Ok(o),
        Err(e) => Err(e@),
    }
}

/// What came of a process that is waited for.
pub open spec fn waited(program: Seq<char>, n: u64, t: TalkView) -> (
    Result<Outcome, Seq<char>>,
    TalkView,
) {
    let (w, t1) = dialog::tried(t, RequestView::AwaitElevated(n));
    match w {
        Err(_) => (
            Err("waiting for '"@ + program + "' failed"@),
            dialog::asked(t1, RequestView::ReleaseElevated(n)).1,
        ),
        Ok(_) => {
            let (a, t2) = dialog::asked(t1, RequestView::ElevatedExit(n));
            let t3 = dialog::asked(t2, RequestView::ReleaseElevated(n)).1;
            (
                match a {
                    AnswerView::Failure(e) => Err(
                        "could not read '"@ + program + "' exit code: "@ + e,
                    ),
                    _ => Ok(Outcome::Exited((a.as_number() % 0x1_0000_0000) as u32)),
                },
                t3,
            )
        },
    }
}

/// What came of launching a program.
pub open spec fn launched(o: OptionsView, t: TalkView) -> (Result<Outcome, Seq<char>>, TalkView) {
    let (a, t1) = dialog::asked(
        t,
        RequestView::Elevate(o.program, command_line(o.arguments), o.cwd),
    );
    match a {
        AnswerView::Number(n) => if o.wait {
            waited(o.program, n, t1)
        } else {
            (Ok(Outcome::Launched), dialog::asked(t1, RequestView::ReleaseElevated(n)).1)
        },
        AnswerView::Code(code, e) => (
            if code == 1223 {
                Err("UAC consent was cancelled"@)
            } else {
                Err("could not start '"@ + o.program + "': "@ + e)
            },
            t1,
        ),
        _ => (Err("Windows did not return a process handle for '"@ + o.program + "'"@), t1),
    }
}

/// What `elevate` does.
pub open spec fn elevated(args: Seq<Seq<char>>, t: TalkView) -> (
    Result<Outcome, Seq<char>>,
    TalkView,
) {
    match options_from(args, 0, false, None) {
        Err(e) => (Err(e), t),
        Ok(o) => {
            let (w, t1) = dialog::asked(t, RequestView::OnWindows);
            if !w.as_truth() {
                (Err("elevation is only available on Windows"@), t1)
            } else {
                match o.cwd {
                    None => launched(o, t1),
                    Some(cwd) => {
                        let (d, t2) = dialog::asked(t1, RequestView::IsDirectory(cwd));
                        if d.as_truth() {
                            launched(o, t2)
                        } else {
                            (Err("working directory does not exist: "@ + cwd), t2)
                        }
                    },
                }
            }
        },
    }
}

fn wait_for(program: &str, n: u64, talk: &mut Talk) -> (r: Result<Outcome, String>)
    ensures
        (outcome_view(r), final(talk)@) == waited(program@, n, old(talk)@),
{
    match talk.attempt(Request::AwaitElevated(n)) {
        Err(_) => {
            let _gone = talk.ask(Request::ReleaseElevated(n));
            return Err(cat3("waiting for '", program, "' failed"));
        },
        Ok(_) => {},
    }
    let a = talk.ask(Request::ElevatedExit(n));
    let _gone = talk.ask(Request::ReleaseElevated(n));
    match a {
        Answer::Failure(e) => {
            let start = cat3("could not read '", program, "' exit code: ");
            Err(cat2(start.as_str(), e.as_str()))
        },
        other => Ok(Outcome::Exited((other.number() % 0x1_0000_0000) as u32)),
    }
}

fn launch(o: Options, talk: &mut Talk) -> (r: Result<Outcome, String>)
    ensures
        (outcome_view(r), final(talk)@) == launched(o@, old(talk)@),
{
    let parameters = parameter_string(&o.arguments);
    let program = o.program.clone();
    match talk.ask(Request::Elevate(program, parameters, o.cwd)) {
        Answer::Number(n) => if o.wait {
            wait_for(o.program.as_str(), n, talk)
        } else {
            let _gone = talk.ask(Request::ReleaseElevated(n));
            Ok(Outcome::Launched)
        },
        Answer::Code(code, e) => if code == 1223 {
            Err("UAC consent was cancelled".to_owned())
        } else {
            let start = cat3("could not start '", o.program.as_str(), "': ");
            Err(cat2(start.as_str(), e.as_str()))
        },
        _ => Err(
            cat3("Windows did not return a process handle for '", o.program.as_str(), "'"),
        ),
    }
}

/// Launches a program with the rights of an administrator.
pub fn run(args: &[String], talk: &mut Talk) -> (r: Result<Outcome, String>)
    ensures
        (outcome_view(r), final(talk)@) == elevated(text::texts(args@), old(talk)@),
{
    let o = match parse_options(args) {
        Err(e) => {
            return Err(e);
        },
        Ok(o) => o,
    };
    if !talk.ask(Request::OnWindows).truth() {
        return Err("elevation is only available on Windows".to_owned());
    }
    if let Some(cwd) = &o.cwd {
        if !talk.ask(Request::IsDirectory(cwd.clone())).truth() {
            return Err(cat2("working directory does not exist: ", cwd.as_str()));
        }
    }
    launch(o, talk)
}

/// Whether a truth or a message.
pub open spec fn truth_view(r: Result<bool, String>) -> Result<bool, Seq<char>> {
    match r {
        Ok(b) => Ok(b),
        Err(e) => Err(e@),
    }
}

/// Whether the shell has the rights of an administrator, or a message.
pub open spec fn elevation(t: TalkView) -> (Result<bool, Seq<char>>, TalkView) {
    let (w, t1) = dialog::asked(t, RequestView::OnWindows);
    if w.as_truth() {
        let (a, t2) = dialog::asked(t1, RequestView::Elevation);
        (
            match a {
                AnswerView::Failure(e) => Err(e),
                _ => Ok(a.as_truth()),
            },
            t2,
        )
    } else {
        (Err("elevation status is only available on Windows"@), t1)
    }
}

/// Tells whether the shell has the rights of an administrator.
pub fn is_elevated(talk: &mut Talk) -> (r: Result<bool, String>)
    ensures
        (truth_view(r), final(talk)@) == elevation(old(talk)@),
{
    if talk.ask(Request::OnWindows).truth() {
        match talk.ask(Request::Elevation) {
            Answer::Failure(e) => Err(e),
            other => Ok(other.truth()),
        }
    } else {
        Err("elevation status is only available on Windows".to_owned())
    }
}

/// Options stand before the program: `--wait` asks to wait, `--cwd` names the
/// directory, and what does not begin with a dash is the program, with all
/// that follows as its arguments.
pub proof fn law_options_come_first(program: Seq<char>, dir: Seq<char>, rest: Seq<Seq<char>>)
    requires
        program.len() > 0,
        program[0] != '-',
    ensures
        ({
            let plain = |wait: bool, cwd: Option<Seq<char>>|
                Ok::<OptionsView, Seq<char>>(
                    OptionsView { wait, cwd, program, arguments: rest },
                );
            &&& options_from(seq![program] + rest, 0, false, None) == plain(false, None)
            &&& options_from(seq!["--wait"@, program] + rest, 0, false, None) == plain(true, None)
            &&& options_from(seq!["--cwd"@, dir, program] + rest, 0, false, None) == plain(
                false,
                Some(dir),
            )
            &&& options_from(Seq::empty(), 0, false, None) is Err
            &&& options_from(seq!["--cwd"@], 0, false, None) is Err
        }),
{
    reveal_strlit("--wait");
    reveal_strlit("--cwd");
    reveal_strlit("--");
    reveal_strlit("--help");
    reveal_strlit("-h");
    assert("--wait"@[0] == '-' && "--cwd"@[0] == '-' && "--"@[0] == '-' && "--help"@[0] == '-'
        && "-h"@[0] == '-');
    assert("--wait"@.len() == 6 && "--cwd"@.len() == 5);
    let a = seq![program] + rest;
    assert(a[0] == program);
    assert(a.skip(1) =~= rest);
    let b = seq!["--wait"@, program] + rest;
    assert(b[0] == "--wait"@ && b[1] == program);
    assert(b.skip(2) =~= rest);
    assert(options_from(b, 1, true, None) == program_at(b, 1, true, None));
    let c = seq!["--cwd"@, dir, program] + rest;
    assert(c[0] == "--cwd"@ && c[1] == dir && c[2] == program);
    assert(c.skip(3) =~= rest);
    assert(options_from(c, 2, false, Some(dir)) == program_at(c, 2, false, Some(dir)));
    let d = seq!["--cwd"@];
    assert(d[0] == "--cwd"@);
}

/// A program is launched with its own command line in its own directory; it
/// is waited for exactly where that was asked for, and what it exits with is
/// given then. Either way the shell lets go of it.
pub proof fn law_launches_are_waited_for_where_asked(o: OptionsView, n: u64, code: u64, t: TalkView)
    requires
        t.pending is None,
        0 <= t.next,
        t.next + 4 <= t.answers.len(),
        t.answers[t.next] == AnswerView::Number(n),
        !(t.answers[t.next + 1] is Failure),
        t.answers[t.next + 2] == AnswerView::Number(code),
        code <= u32::MAX,
    ensures
        ({
            let (r, t2) = launched(o, t);
            let first = t.made.push(
                RequestView::Elevate(o.program, command_line(o.arguments), o.cwd),
            );
            &&& !o.wait ==> r == Ok::<Outcome, Seq<char>>(Outcome::Launched) && t2.made
                == first.push(RequestView::ReleaseElevated(n))
            &&& o.wait ==> r == Ok::<Outcome, Seq<char>>(Outcome::Exited(code as u32)) && t2.made
                == first.push(RequestView::AwaitElevated(n)).push(
                RequestView::ElevatedExit(n),
            ).push(RequestView::ReleaseElevated(n))
        }),
{
    assert(code % 0x1_0000_0000 == code);
}

/// A launch that the user does not consent to, or that fails, is an error and
/// nothing is waited for.
pub proof fn law_refused_launches_are_errors(o: OptionsView, t: TalkView)
    requires
        t.pending is None,
        0 <= t.next < t.answers.len(),
        !(t.answers[t.next] is Number),
    ensures
        launched(o, t).0 is Err,
        launched(o, t).1.made == t.made.push(
            RequestView::Elevate(o.program, command_line(o.arguments), o.cwd),
        ),
        t.answers[t.next] matches AnswerView::Code(c, e) && c == 1223 ==> launched(o, t).0 == Err::<
            Outcome,
            Seq<char>,
        >("UAC consent was cancelled"@),
{
}

/// A program that was launched, or that exited with zero, went well; any other
/// exit did not.
pub proof fn law_only_zero_is_good(code: u32)
    ensures
        Outcome::Launched.good(),
        Outcome::Exited(code).good() <==> code == 0,
{
}

/// Whether the shell is elevated is what Windows answers; elsewhere it is an
/// error, and not asked.
pub proof fn law_elevation_is_asked_of_windows(t: TalkView)
    requires
        t.pending is None,
        0 <= t.next,
        t.next + 2 <= t.answers.len(),
    ensures
        ({
            let (r, t1) = elevation(t);
            let (windows, answer) = (t.answers[t.next], t.answers[t.next + 1]);
            &&& windows == AnswerView::Truth(false) ==> r is Err && t1.made == t.made.push(
                RequestView::OnWindows,
            )
            &&& windows == AnswerView::Truth(true) ==> {
                &&& t1.made == t.made.push(RequestView::OnWindows).push(RequestView::Elevation)
                &&& answer matches AnswerView::Truth(b) ==> r == Ok::<bool, Seq<char>>(b)
                &&& answer matches AnswerView::Failure(e) ==> r == Err::<bool, Seq<char>>(e)
            }
        }),
{
}

/// Nothing is launched elsewhere than on Windows, nor in a directory that is
/// none.
pub proof fn law_launches_need_windows_and_a_directory(args: Seq<Seq<char>>, t: TalkView)
    requires
        t.pending is None,
        0 <= t.next,
        t.next + 2 <= t.answers.len(),
    ensures
        ({
            let (r, t1) = elevated(args, t);
            let (windows, answer) = (t.answers[t.next], t.answers[t.next + 1]);
            let o = options_from(args, 0, false, None);
            &&& o is Err ==> r is Err && t1 == t
            &&& o is Ok && windows == AnswerView::Truth(false) ==> r is Err && t1.made
                == t.made.push(RequestView::OnWindows)
            &&& o is Ok && windows == AnswerView::Truth(true) ==> match o->Ok_0.cwd {
                Some(dir) => answer == AnswerView::Truth(false) ==> r is Err && t1.made
                    == t.made.push(RequestView::OnWindows).push(RequestView::IsDirectory(dir)),
                None => (r, t1) == launched(o->Ok_0, dialog::asked(t, RequestView::OnWindows).1),
            }
        }),
{
}

} // verus!
